//! Pipeline variants: one per geometry source, target format, sample count and
//! phase, compiled once.

use vstd::prelude::*;

use crate::keyed::KeyedStore;
use crate::render::pass::Source;

verus! {

/// What sets a pipeline variant apart from the others of its source: a number
/// for the target format, the sample count, and the phase.
#[derive(Clone, Copy, Debug, PartialEq, Eq, Structural)]
pub struct Variant {
    pub format: u16,
    pub samples: u32,
    pub opaque: bool,
}

/// The number of a variant.
pub open spec fn variant_number(variant: Variant) -> int {
    variant.format * 0x2_0000_0000 + variant.samples * 2 + if variant.opaque {
        1int
    } else {
        0int
    }
}

fn variant_key(variant: Variant) -> (key: u64)
    ensures
        key == variant_number(variant),
{
    let phase: u64 = if variant.opaque {
        1
    } else {
        0
    };
    variant.format as u64 * 0x2_0000_0000 + variant.samples as u64 * 2 + phase
}

/// Different variants have different numbers.
pub proof fn lemma_variants_are_told_apart(a: Variant, b: Variant)
    requires
        variant_number(a) == variant_number(b),
    ensures
        a == b,
{
}

/// How a variant is built. Opaque content writes depth and does not blend;
/// everything else blends and only reads depth.
#[derive(Clone, Copy, Debug, PartialEq, Eq)]
pub struct PipelineRequest {
    pub label: &'static str,
    pub source: Source,
    pub format: u16,
    pub samples: u32,
    pub blend: bool,
    pub depth_write: bool,
}

pub open spec fn pipeline_label(source: Source, opaque: bool) -> Seq<char> {
    match source {
        Source::Tessellated => if opaque {
            "pf_vector_opaque_pipeline"@
        } else {
            "pf_vector_blend_pipeline"@
        },
        Source::Arc => if opaque {
            "pf_vector_param_opaque_pipeline"@
        } else {
            "pf_vector_param_blend_pipeline"@
        },
        Source::Sdf => if opaque {
            "pf_vector_sdf_opaque_pipeline"@
        } else {
            "pf_vector_sdf_blend_pipeline"@
        },
    }
}

pub open spec fn requests(request: PipelineRequest, source: Source, variant: Variant) -> bool {
    &&& request.label@ == pipeline_label(source, variant.opaque)
    &&& request.source == source
    &&& request.format == variant.format
    &&& request.samples == variant.samples
    &&& request.blend == !variant.opaque
    &&& request.depth_write == variant.opaque
}

fn request_for(source: Source, variant: Variant) -> (request: PipelineRequest)
    ensures
        requests(request, source, variant),
{
    let label: &'static str = match source {
        Source::Tessellated => if variant.opaque {
            "pf_vector_opaque_pipeline"
        } else {
            "pf_vector_blend_pipeline"
        },
        Source::Arc => if variant.opaque {
            "pf_vector_param_opaque_pipeline"
        } else {
            "pf_vector_param_blend_pipeline"
        },
        Source::Sdf => if variant.opaque {
            "pf_vector_sdf_opaque_pipeline"
        } else {
            "pf_vector_sdf_blend_pipeline"
        },
    };
    PipelineRequest {
        label,
        source,
        format: variant.format,
        samples: variant.samples,
        blend: !variant.opaque,
        depth_write: variant.opaque,
    }
}

/// The queued pipelines of each source, by number of the variant.
pub struct VectorPipeline {
    pub variants: KeyedStore<usize>,
    pub param_variants: KeyedStore<usize>,
    pub sdf_variants: KeyedStore<usize>,
}

impl VectorPipeline {
    pub open spec fn wf(self) -> bool {
        self.variants.wf() && self.param_variants.wf() && self.sdf_variants.wf()
    }

    /// The pipelines of one source.
    pub open spec fn of(self, source: Source) -> Map<u64, usize> {
        match source {
            Source::Tessellated => self.variants@,
            Source::Arc => self.param_variants@,
            Source::Sdf => self.sdf_variants@,
        }
    }

    pub fn new() -> (pipelines: VectorPipeline)
        ensures
            pipelines.wf(),
            forall|source: Source| #[trigger] pipelines.of(source) == Map::<u64, usize>::empty(),
    {
        VectorPipeline {
            variants: KeyedStore::new(),
            param_variants: KeyedStore::new(),
            sdf_variants: KeyedStore::new(),
        }
    }

    /// The pipeline of a variant, where it has been queued.
    pub fn get(&self, source: Source, variant: Variant) -> (id: Option<usize>)
        requires
            self.wf(),
        ensures
            id == (if self.of(source).dom().contains(variant_number(variant) as u64) {
                Some(self.of(source)[variant_number(variant) as u64])
            } else {
                None
            }),
    {
        let key: u64 = variant_key(variant);
        let found: Option<&usize> = match source {
            Source::Tessellated => self.variants.get(key),
            Source::Arc => self.param_variants.get(key),
            Source::Sdf => self.sdf_variants.get(key),
        };
        match found {
            Some(id) => Some(*id),
            None => None,
        }
    }

    /// The pipeline of a variant, queued on first sight: where it is known,
    /// nothing is asked of `queue`, and it is not called.
    pub fn ensure<F: FnOnce(PipelineRequest) -> usize>(
        &mut self,
        source: Source,
        variant: Variant,
        queue: F,
    ) -> (id: usize)
        requires
            old(self).wf(),
            !old(self).of(source).dom().contains(variant_number(variant) as u64)
                ==> forall|request: PipelineRequest| #[trigger]
                requests(request, source, variant) ==> queue.requires((request,)),
        ensures
            final(self).wf(),
            forall|other: Source|
                other != source ==> #[trigger] final(self).of(other) == old(self).of(other),
            old(self).of(source).dom().contains(variant_number(variant) as u64) ==> final(self).of(
                source,
            ) == old(self).of(source) && id == old(self).of(source)[variant_number(
                variant,
            ) as u64],
            !old(self).of(source).dom().contains(variant_number(variant) as u64) ==> final(self).of(
                source,
            ) == old(self).of(source).insert(variant_number(variant) as u64, id)
                && exists|request: PipelineRequest| #[trigger]
                requests(request, source, variant) && queue.ensures((request,), id),
    {
        match self.get(source, variant) {
            Some(id) => {
                return id;
            },
            None => {},
        }
        let request: PipelineRequest = request_for(source, variant);
        assert(requests(request, source, variant));
        let id: usize = queue(request);
        let key: u64 = variant_key(variant);
        match source {
            Source::Tessellated => self.variants.insert(key, id),
            Source::Arc => self.param_variants.insert(key, id),
            Source::Sdf => self.sdf_variants.insert(key, id),
        }
        id
    }
}


/// A variant is built for its own source, target and sample count. It writes
/// depth exactly where it is opaque, and blends exactly where it is not.
pub proof fn lemma_only_opaque_variants_write_depth(
    request: PipelineRequest,
    source: Source,
    variant: Variant,
)
    requires
        requests(request, source, variant),
    ensures
        request.depth_write <==> variant.opaque,
        request.blend <==> !variant.opaque,
        request.source == source,
        request.format == variant.format,
        request.samples == variant.samples,
        request.label@ == match (source, variant.opaque) {
            (Source::Tessellated, true) => "pf_vector_opaque_pipeline"@,
            (Source::Tessellated, false) => "pf_vector_blend_pipeline"@,
            (Source::Arc, true) => "pf_vector_param_opaque_pipeline"@,
            (Source::Arc, false) => "pf_vector_param_blend_pipeline"@,
            (Source::Sdf, true) => "pf_vector_sdf_opaque_pipeline"@,
            (Source::Sdf, false) => "pf_vector_sdf_blend_pipeline"@,
        },
{
}

} // verus!
