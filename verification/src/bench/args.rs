//! The harness's command line.

use vstd::prelude::*;
use vstd::string::StringExecFns;

use crate::bench::text::{append_number, decimal, number_of, parse_number};

verus! {

/// What is measured.
#[derive(Clone, Copy, Debug, PartialEq, Eq, Structural)]
pub enum Backend {
    Shapes,
    Sprites,
    Engine,
    Vello,
}

impl Backend {
    pub open spec fn spec_name(self) -> Seq<char> {
        match self {
            Backend::Shapes => "shapes"@,
            Backend::Sprites => "sprites"@,
            Backend::Engine => "engine"@,
            Backend::Vello => "vello"@,
        }
    }

    pub fn name(self) -> (name: &'static str)
        ensures
            name@ == self.spec_name(),
    {
        match self {
            Backend::Shapes => "shapes",
            Backend::Sprites => "sprites",
            Backend::Engine => "engine",
            Backend::Vello => "vello",
        }
    }
}

/// The backend with a name.
pub open spec fn backend_named(name: Seq<char>) -> Option<Backend> {
    if name == "shapes"@ {
        Some(Backend::Shapes)
    } else if name == "sprites"@ {
        Some(Backend::Sprites)
    } else if name == "engine"@ {
        Some(Backend::Engine)
    } else if name == "vello"@ {
        Some(Backend::Vello)
    } else {
        None
    }
}

/// A run's configuration.
#[derive(Debug)]
pub struct BenchConfig {
    pub backend: Backend,
    pub elements: u32,
    /// The first so many elements are gauge arcs with an animated sweep.
    pub dynamic: u32,
    /// Number of clip panels, nested inside one outer clip.
    pub clips: u32,
    /// Cluster all elements in a small central disc.
    pub overlap: bool,
    /// Number of stroked paths.
    pub strokes: u32,
    /// Animate through flat transforms.
    pub flat: bool,
    /// Fill shapes with gradients.
    pub gradients: bool,
    pub warmup: u32,
    pub frames: u32,
    pub out_dir: String,
    pub label: String,
    pub screenshot: bool,
}

/// Why a command line is refused.
#[derive(Debug)]
pub enum ArgError {
    /// Nothing follows this option.
    MissingValue(String),
    /// No backend has this name.
    UnknownBackend(String),
    /// What follows this option is not a number.
    BadNumber(String),
    /// This is no option.
    UnknownArgument(String),
}

/// The contents of an error.
pub enum ArgErrorView {
    MissingValue(Seq<char>),
    UnknownBackend(Seq<char>),
    BadNumber(Seq<char>),
    UnknownArgument(Seq<char>),
}

impl View for ArgError {
    type V = ArgErrorView;

    open spec fn view(&self) -> ArgErrorView {
        match self {
            ArgError::MissingValue(text) => ArgErrorView::MissingValue(text@),
            ArgError::UnknownBackend(text) => ArgErrorView::UnknownBackend(text@),
            ArgError::BadNumber(text) => ArgErrorView::BadNumber(text@),
            ArgError::UnknownArgument(text) => ArgErrorView::UnknownArgument(text@),
        }
    }
}

/// What has been set so far.
struct Settings {
    backend: Backend,
    elements: u32,
    dynamic: u32,
    clips: u32,
    overlap: bool,
    strokes: u32,
    flat: bool,
    gradients: bool,
    warmup: u32,
    frames: u32,
    out_dir: String,
    label: Option<String>,
    screenshot: bool,
}

/// The contents of the settings.
#[verifier::ext_equal]
pub struct SettingsView {
    pub backend: Backend,
    pub elements: u32,
    pub dynamic: u32,
    pub clips: u32,
    pub overlap: bool,
    pub strokes: u32,
    pub flat: bool,
    pub gradients: bool,
    pub warmup: u32,
    pub frames: u32,
    pub out_dir: Seq<char>,
    pub label: Option<Seq<char>>,
    pub screenshot: bool,
}

impl View for Settings {
    type V = SettingsView;

    closed spec fn view(&self) -> SettingsView {
        SettingsView {
            backend: self.backend,
            elements: self.elements,
            dynamic: self.dynamic,
            clips: self.clips,
            overlap: self.overlap,
            strokes: self.strokes,
            flat: self.flat,
            gradients: self.gradients,
            warmup: self.warmup,
            frames: self.frames,
            out_dir: self.out_dir@,
            label: match self.label {
                None => None,
                Some(label) => Some(label@),
            },
            screenshot: self.screenshot,
        }
    }
}

/// What holds where nothing is said.
pub open spec fn default_settings() -> SettingsView {
    SettingsView {
        backend: Backend::Shapes,
        elements: 200,
        dynamic: 0,
        clips: 0,
        overlap: false,
        strokes: 0,
        flat: false,
        gradients: false,
        warmup: 120,
        frames: 600,
        out_dir: "benchmarks/results"@,
        label: None,
        screenshot: false,
    }
}

/// The options.
#[derive(Clone, Copy, PartialEq, Eq, Structural)]
pub enum Flag {
    Backend,
    Elements,
    Dynamic,
    Clips,
    Warmup,
    Frames,
    Out,
    Label,
    Strokes,
    Screenshot,
    Overlap,
    Flat,
    Gradients,
}

pub open spec fn flag_named(text: Seq<char>) -> Option<Flag> {
    if text == "--backend"@ {
        Some(Flag::Backend)
    } else if text == "--elements"@ {
        Some(Flag::Elements)
    } else if text == "--dynamic"@ {
        Some(Flag::Dynamic)
    } else if text == "--clips"@ {
        Some(Flag::Clips)
    } else if text == "--warmup"@ {
        Some(Flag::Warmup)
    } else if text == "--frames"@ {
        Some(Flag::Frames)
    } else if text == "--out"@ {
        Some(Flag::Out)
    } else if text == "--label"@ {
        Some(Flag::Label)
    } else if text == "--strokes"@ {
        Some(Flag::Strokes)
    } else if text == "--screenshot"@ {
        Some(Flag::Screenshot)
    } else if text == "--overlap"@ {
        Some(Flag::Overlap)
    } else if text == "--flat"@ {
        Some(Flag::Flat)
    } else if text == "--gradients"@ {
        Some(Flag::Gradients)
    } else {
        None
    }
}

/// The option is followed by a value.
pub open spec fn takes_value(flag: Flag) -> bool {
    !(flag == Flag::Screenshot || flag == Flag::Overlap || flag == Flag::Flat || flag
        == Flag::Gradients)
}

/// The settings with a switch thrown.
pub open spec fn switched(s: SettingsView, flag: Flag) -> SettingsView {
    match flag {
        Flag::Screenshot => SettingsView { screenshot: true, ..s },
        Flag::Overlap => SettingsView { overlap: true, ..s },
        Flag::Flat => SettingsView { flat: true, ..s },
        Flag::Gradients => SettingsView { gradients: true, ..s },
        _ => s,
    }
}

/// The settings with an option set to a value.
pub open spec fn valued(s: SettingsView, flag: Flag, text: Seq<char>, value: Seq<char>) -> Result<
    SettingsView,
    ArgErrorView,
> {
    match flag {
        Flag::Backend => match backend_named(value) {
            Some(backend) => Ok(SettingsView { backend, ..s }),
            None => Err(ArgErrorView::UnknownBackend(value)),
        },
        Flag::Out => Ok(SettingsView { out_dir: value, ..s }),
        Flag::Label => Ok(SettingsView { label: Some(value), ..s }),
        _ => match number_of(value) {
            None => Err(ArgErrorView::BadNumber(text)),
            Some(n) => Ok(
                match flag {
                    Flag::Elements => SettingsView { elements: n, ..s },
                    Flag::Dynamic => SettingsView { dynamic: n, ..s },
                    Flag::Clips => SettingsView { clips: n, ..s },
                    Flag::Warmup => SettingsView { warmup: n, ..s },
                    Flag::Frames => SettingsView { frames: n, ..s },
                    Flag::Strokes => SettingsView { strokes: n, ..s },
                    _ => s,
                },
            ),
        },
    }
}

/// Reads the arguments from a position on. The first that is refused decides.
pub open spec fn settings_from(args: Seq<Seq<char>>, at: int, s: SettingsView) -> Result<
    SettingsView,
    ArgErrorView,
>
    decreases args.len() - at,
{
    if at < 0 || at >= args.len() {
        Ok(s)
    } else {
        match flag_named(args[at]) {
            None => Err(ArgErrorView::UnknownArgument(args[at])),
            Some(flag) => if !takes_value(flag) {
                settings_from(args, at + 1, switched(s, flag))
            } else if at + 1 >= args.len() {
                Err(ArgErrorView::MissingValue(args[at]))
            } else {
                match valued(s, flag, args[at], args[at + 1]) {
                    Err(error) => Err(error),
                    Ok(next) => settings_from(args, at + 2, next),
                }
            },
        }
    }
}

/// The label of a run that was given none: what sets its workload apart.
pub open spec fn default_label(s: SettingsView) -> Seq<char> {
    let frames = decimal(s.frames as nat) + "f"@;
    let name = s.backend.spec_name() + "_"@;
    if s.strokes > 0 {
        name + decimal(s.strokes as nat) + "strk_"@ + frames
    } else {
        let elements = name + decimal(s.elements as nat);
        if s.flat {
            elements + "el_flat_"@ + frames
        } else if s.gradients {
            elements + "el_grad_"@ + frames
        } else if s.overlap {
            elements + "el_ovl_"@ + frames
        } else if s.clips > 0 {
            elements + "el_"@ + decimal(s.clips as nat) + "clips_"@ + frames
        } else if s.dynamic > 0 {
            elements + "el_"@ + decimal(s.dynamic as nat) + "dyn_"@ + frames
        } else {
            elements + "el_"@ + frames
        }
    }
}

/// The configuration is what the settings say.
pub open spec fn configured(config: BenchConfig, s: SettingsView) -> bool {
    &&& config.backend == s.backend
    &&& config.elements == s.elements
    &&& config.dynamic == s.dynamic
    &&& config.clips == s.clips
    &&& config.overlap == s.overlap
    &&& config.strokes == s.strokes
    &&& config.flat == s.flat
    &&& config.gradients == s.gradients
    &&& config.warmup == s.warmup
    &&& config.frames == s.frames
    &&& config.out_dir@ == s.out_dir
    &&& config.label@ == match s.label {
        Some(label) => label,
        None => default_label(s),
    }
    &&& config.screenshot == s.screenshot
}

pub open spec fn texts(args: Seq<String>) -> Seq<Seq<char>> {
    args.map_values(|arg: String| arg@)
}

fn is(text: &String, word: &str) -> (r: bool)
    ensures
        r == (text@ == word@),
{
    *text == word.to_owned()
}

fn find_flag(text: &String) -> (flag: Option<Flag>)
    ensures
        flag == flag_named(text@),
{
    if is(text, "--backend") {
        Some(Flag::Backend)
    } else if is(text, "--elements") {
        Some(Flag::Elements)
    } else if is(text, "--dynamic") {
        Some(Flag::Dynamic)
    } else if is(text, "--clips") {
        Some(Flag::Clips)
    } else if is(text, "--warmup") {
        Some(Flag::Warmup)
    } else if is(text, "--frames") {
        Some(Flag::Frames)
    } else if is(text, "--out") {
        Some(Flag::Out)
    } else if is(text, "--label") {
        Some(Flag::Label)
    } else if is(text, "--strokes") {
        Some(Flag::Strokes)
    } else if is(text, "--screenshot") {
        Some(Flag::Screenshot)
    } else if is(text, "--overlap") {
        Some(Flag::Overlap)
    } else if is(text, "--flat") {
        Some(Flag::Flat)
    } else if is(text, "--gradients") {
        Some(Flag::Gradients)
    } else {
        None
    }
}

fn find_backend(name: &String) -> (backend: Option<Backend>)
    ensures
        backend == backend_named(name@),
{
    if is(name, "shapes") {
        Some(Backend::Shapes)
    } else if is(name, "sprites") {
        Some(Backend::Sprites)
    } else if is(name, "engine") {
        Some(Backend::Engine)
    } else if is(name, "vello") {
        Some(Backend::Vello)
    } else {
        None
    }
}

fn flag_takes_value(flag: Flag) -> (r: bool)
    ensures
        r == takes_value(flag),
{
    !(flag == Flag::Screenshot || flag == Flag::Overlap || flag == Flag::Flat || flag
        == Flag::Gradients)
}

pub open spec fn outcome_view(result: Result<(), ArgError>, s: SettingsView) -> Result<
    SettingsView,
    ArgErrorView,
> {
    match result {
        Ok(_) => Ok(s),
        Err(error) => Err(error@),
    }
}

impl Settings {
    fn new() -> (settings: Settings)
        ensures
            settings@ == default_settings(),
    {
        Settings {
            backend: Backend::Shapes,
            elements: 200,
            dynamic: 0,
            clips: 0,
            overlap: false,
            strokes: 0,
            flat: false,
            gradients: false,
            warmup: 120,
            frames: 600,
            out_dir: "benchmarks/results".to_owned(),
            label: None,
            screenshot: false,
        }
    }

    fn switch(&mut self, flag: Flag)
        ensures
            final(self)@ == switched(old(self)@, flag),
    {
        match flag {
            Flag::Screenshot => {
                self.screenshot = true;
            },
            Flag::Overlap => {
                self.overlap = true;
            },
            Flag::Flat => {
                self.flat = true;
            },
            Flag::Gradients => {
                self.gradients = true;
            },
            _ => {},
        }
    }

    fn set(&mut self, flag: Flag, text: &String, value: &String) -> (result: Result<(), ArgError>)
        ensures
            outcome_view(result, final(self)@) == valued(old(self)@, flag, text@, value@),
    {
        match flag {
            Flag::Backend => {
                match find_backend(value) {
                    Some(backend) => {
                        self.backend = backend;
                    },
                    None => {
                        return Err(ArgError::UnknownBackend(value.clone()));
                    },
                }
            },
            Flag::Out => {
                self.out_dir = value.clone();
            },
            Flag::Label => {
                self.label = Some(value.clone());
            },
            _ => {
                let n: u32 = match parse_number(value.as_str()) {
                    None => {
                        return Err(ArgError::BadNumber(text.clone()));
                    },
                    Some(n) => n,
                };
                match flag {
                    Flag::Elements => {
                        self.elements = n;
                    },
                    Flag::Dynamic => {
                        self.dynamic = n;
                    },
                    Flag::Clips => {
                        self.clips = n;
                    },
                    Flag::Warmup => {
                        self.warmup = n;
                    },
                    Flag::Frames => {
                        self.frames = n;
                    },
                    Flag::Strokes => {
                        self.strokes = n;
                    },
                    _ => {},
                }
            },
        }
        Ok(())
    }

    fn default_label(&self) -> (label: String)
        ensures
            label@ == default_label(self@),
    {
        let mut label: String = self.backend.name().to_owned();
        label.append("_");
        if self.strokes > 0 {
            append_number(&mut label, self.strokes as u64);
            label.append("strk_");
        } else {
            append_number(&mut label, self.elements as u64);
            if self.flat {
                label.append("el_flat_");
            } else if self.gradients {
                label.append("el_grad_");
            } else if self.overlap {
                label.append("el_ovl_");
            } else {
                label.append("el_");
                if self.clips > 0 {
                    append_number(&mut label, self.clips as u64);
                    label.append("clips_");
                } else if self.dynamic > 0 {
                    append_number(&mut label, self.dynamic as u64);
                    label.append("dyn_");
                }
            }
        }
        append_number(&mut label, self.frames as u64);
        label.append("f");
        assert(label@ =~= default_label(self@));
        label
    }
}

pub open spec fn config_outcome(result: Result<BenchConfig, ArgError>, expected: Result<
    SettingsView,
    ArgErrorView,
>) -> bool {
    match (result, expected) {
        (Ok(config), Ok(settings)) => configured(config, settings),
        (Err(error), Err(view)) => error@ == view,
        _ => false,
    }
}

/// Reads the command line, without the program's name.
pub fn parse_args(args: &Vec<String>) -> (result: Result<BenchConfig, ArgError>)
    ensures
        config_outcome(result, settings_from(texts(args@), 0, default_settings())),
{
    let mut settings = Settings::new();
    let ghost all = texts(args@);
    let mut i: usize = 0;
    while i < args.len()
        invariant
            all == texts(args@),
            i <= args@.len(),
            settings_from(all, 0, default_settings()) == settings_from(all, i as int, settings@),
        decreases args@.len() - i,
    {
        let arg: &String = &args[i];
        assert(all[i as int] == arg@);
        match find_flag(arg) {
            None => {
                return Err(ArgError::UnknownArgument(arg.clone()));
            },
            Some(flag) => {
                if !flag_takes_value(flag) {
                    settings.switch(flag);
                    i = i + 1;
                } else if i == args.len() - 1 {
                    return Err(ArgError::MissingValue(arg.clone()));
                } else {
                    assert(all[i + 1] == args@[i + 1]@);
                    match settings.set(flag, arg, &args[i + 1]) {
                        Err(error) => {
                            return Err(error);
                        },
                        Ok(_) => {},
                    }
                    i = i + 2;
                }
            },
        }
    }
    let label: String = match &settings.label {
        Some(label) => label.clone(),
        None => settings.default_label(),
    };
    Ok(
        BenchConfig {
            backend: settings.backend,
            elements: settings.elements,
            dynamic: settings.dynamic,
            clips: settings.clips,
            overlap: settings.overlap,
            strokes: settings.strokes,
            flat: settings.flat,
            gradients: settings.gradients,
            warmup: settings.warmup,
            frames: settings.frames,
            out_dir: settings.out_dir,
            label,
            screenshot: settings.screenshot,
        },
    )
}

impl BenchConfig {
    /// The backend can run the workload: clips, strokes and gradients need the
    /// engine or vello.
    pub open spec fn supported(self) -> bool {
        self.clips > 0 || self.strokes > 0 || self.gradients ==> self.backend == Backend::Engine
            || self.backend == Backend::Vello
    }

    pub fn is_supported(&self) -> (r: bool)
        ensures
            r == self.supported(),
    {
        !(self.clips > 0 || self.strokes > 0 || self.gradients) || self.backend == Backend::Engine
            || self.backend == Backend::Vello
    }

    /// The standard content is drawn: the clip and stroke workloads take its
    /// place.
    pub fn draws_standard(&self) -> (r: bool)
        ensures
            r == (self.clips == 0 && self.strokes == 0),
    {
        self.clips == 0 && self.strokes == 0
    }
}

/// A backend is found by the name it gives itself.
pub proof fn lemma_backends_are_found_by_name(backend: Backend)
    ensures
        backend_named(backend.spec_name()) == Some(backend),
{
    reveal_strlit("shapes");
    reveal_strlit("sprites");
    reveal_strlit("engine");
    reveal_strlit("vello");
    assert("shapes"@.len() == 6 && "sprites"@.len() == 7 && "engine"@.len() == 6 && "vello"@.len()
        == 5);
    assert("shapes"@[0] != "engine"@[0]);
}

/// An option at the end of a command line that is otherwise accepted has the
/// last word.
pub proof fn lemma_last_option_wins(
    args: Seq<Seq<char>>,
    at: int,
    s: SettingsView,
    text: Seq<char>,
    value: Seq<char>,
)
    requires
        0 <= at <= args.len(),
        settings_from(args, at, s) is Ok,
        flag_named(text) is Some,
        takes_value(flag_named(text)->0),
    ensures
        settings_from(args.push(text).push(value), at, s) == valued(
            settings_from(args, at, s)->Ok_0,
            flag_named(text)->0,
            text,
            value,
        ),
    decreases args.len() - at,
{
    let longer = args.push(text).push(value);
    if at < args.len() {
        assert(longer[at] == args[at]);
        let flag = flag_named(args[at])->0;
        if !takes_value(flag) {
            lemma_last_option_wins(args, at + 1, switched(s, flag), text, value);
        } else {
            assert(longer[at + 1] == args[at + 1]);
            let next = valued(s, flag, args[at], args[at + 1])->Ok_0;
            lemma_last_option_wins(args, at + 2, next, text, value);
        }
    } else {
        assert(longer[at] == text && longer[at + 1] == value);
        let next = valued(s, flag_named(text)->0, text, value);
        if let Ok(next) = next {
            assert(settings_from(longer, at + 2, next) == Ok::<SettingsView, ArgErrorView>(next));
        }
    }
}


/// Every option goes by its own name.
pub proof fn lemma_options_go_by_their_names()
    ensures
        flag_named("--backend"@) == Some(Flag::Backend),
        flag_named("--elements"@) == Some(Flag::Elements),
        flag_named("--dynamic"@) == Some(Flag::Dynamic),
        flag_named("--clips"@) == Some(Flag::Clips),
        flag_named("--warmup"@) == Some(Flag::Warmup),
        flag_named("--frames"@) == Some(Flag::Frames),
        flag_named("--out"@) == Some(Flag::Out),
        flag_named("--label"@) == Some(Flag::Label),
        flag_named("--strokes"@) == Some(Flag::Strokes),
        flag_named("--screenshot"@) == Some(Flag::Screenshot),
        flag_named("--overlap"@) == Some(Flag::Overlap),
        flag_named("--flat"@) == Some(Flag::Flat),
        flag_named("--gradients"@) == Some(Flag::Gradients),
{
    reveal_strlit("--backend");
    reveal_strlit("--elements");
    reveal_strlit("--dynamic");
    reveal_strlit("--clips");
    reveal_strlit("--warmup");
    reveal_strlit("--frames");
    reveal_strlit("--out");
    reveal_strlit("--label");
    reveal_strlit("--strokes");
    reveal_strlit("--screenshot");
    reveal_strlit("--overlap");
    reveal_strlit("--flat");
    reveal_strlit("--gradients");
    assert("--backend"@.len() == 9 && "--backend"@[2] == 'b');
    assert("--elements"@.len() == 10 && "--elements"@[2] == 'e');
    assert("--dynamic"@.len() == 9 && "--dynamic"@[2] == 'd');
    assert("--clips"@.len() == 7 && "--clips"@[2] == 'c');
    assert("--warmup"@.len() == 8 && "--warmup"@[2] == 'w');
    assert("--frames"@.len() == 8 && "--frames"@[2] == 'f');
    assert("--out"@.len() == 5 && "--out"@[2] == 'o');
    assert("--label"@.len() == 7 && "--label"@[2] == 'l');
    assert("--strokes"@.len() == 9 && "--strokes"@[2] == 's');
    assert("--screenshot"@.len() == 12 && "--screenshot"@[2] == 's');
    assert("--overlap"@.len() == 9 && "--overlap"@[2] == 'o');
    assert("--flat"@.len() == 6 && "--flat"@[2] == 'f');
    assert("--gradients"@.len() == 11 && "--gradients"@[2] == 'g');
}

/// A text that names no option is none.
pub proof fn lemma_other_texts_are_no_options(text: Seq<char>)
    requires
        text != "--backend"@,
        text != "--elements"@,
        text != "--dynamic"@,
        text != "--clips"@,
        text != "--warmup"@,
        text != "--frames"@,
        text != "--out"@,
        text != "--label"@,
        text != "--strokes"@,
        text != "--screenshot"@,
        text != "--overlap"@,
        text != "--flat"@,
        text != "--gradients"@,
    ensures
        flag_named(text) is None,
{
}

/// Two settings that agree in everything but what this option sets.
pub open spec fn same_but(a: SettingsView, b: SettingsView, flag: Flag) -> bool {
    &&& a.backend == b.backend || flag == Flag::Backend
    &&& a.elements == b.elements || flag == Flag::Elements
    &&& a.dynamic == b.dynamic || flag == Flag::Dynamic
    &&& a.clips == b.clips || flag == Flag::Clips
    &&& a.overlap == b.overlap || flag == Flag::Overlap
    &&& a.strokes == b.strokes || flag == Flag::Strokes
    &&& a.flat == b.flat || flag == Flag::Flat
    &&& a.gradients == b.gradients || flag == Flag::Gradients
    &&& a.warmup == b.warmup || flag == Flag::Warmup
    &&& a.frames == b.frames || flag == Flag::Frames
    &&& a.out_dir == b.out_dir || flag == Flag::Out
    &&& a.label == b.label || flag == Flag::Label
    &&& a.screenshot == b.screenshot || flag == Flag::Screenshot
}

/// An option with a value sets its own setting to that value and leaves the
/// others alone. A number has to be one, and a backend has to be known.
pub proof fn lemma_options_set_their_own_setting(
    s: SettingsView,
    flag: Flag,
    text: Seq<char>,
    value: Seq<char>,
)
    requires
        takes_value(flag),
    ensures
        match valued(s, flag, text, value) {
            Ok(next) => same_but(s, next, flag) && match flag {
                Flag::Backend => backend_named(value) == Some(next.backend),
                Flag::Elements => number_of(value) == Some(next.elements),
                Flag::Dynamic => number_of(value) == Some(next.dynamic),
                Flag::Clips => number_of(value) == Some(next.clips),
                Flag::Warmup => number_of(value) == Some(next.warmup),
                Flag::Frames => number_of(value) == Some(next.frames),
                Flag::Strokes => number_of(value) == Some(next.strokes),
                Flag::Out => next.out_dir == value,
                Flag::Label => next.label == Some(value),
                _ => false,
            },
            Err(ArgErrorView::UnknownBackend(name)) => flag is Backend && name == value
                && backend_named(value) is None,
            Err(ArgErrorView::BadNumber(option)) => option == text && number_of(value) is None
                && !(flag is Backend || flag is Out || flag is Label),
            Err(_) => false,
        },
{
}

/// The four switches take no value; each turns its own setting on and leaves the
/// others alone. All other options take a value.
pub proof fn lemma_switches_turn_their_own_setting_on(s: SettingsView, flag: Flag)
    ensures
        takes_value(flag) <==> !(flag is Screenshot || flag is Overlap || flag is Flat || flag
            is Gradients),
        same_but(s, switched(s, flag), flag),
        flag is Screenshot ==> switched(s, flag).screenshot,
        flag is Overlap ==> switched(s, flag).overlap,
        flag is Flat ==> switched(s, flag).flat,
        flag is Gradients ==> switched(s, flag).gradients,
{
}

/// Without options two hundred plain elements are drawn for 600 frames after
/// 120, with nothing else.
pub proof fn lemma_nothing_said_means_the_plain_workload(args: Seq<Seq<char>>)
    requires
        args.len() == 0,
    ensures
        settings_from(args, 0, default_settings()) matches Ok(s) && {
            &&& s.backend is Shapes
            &&& s.elements == 200 && s.warmup == 120 && s.frames == 600
            &&& s.dynamic == 0 && s.clips == 0 && s.strokes == 0
            &&& !s.overlap && !s.flat && !s.gradients && !s.screenshot
            &&& s.out_dir == "benchmarks/results"@
            &&& s.label is None
        },
{
}

/// What stands at the end of a command line that is otherwise accepted decides
/// how it ends: a switch is turned on, an option that wants a value lacks it, and
/// anything else is refused, each by its text.
pub proof fn lemma_last_texts_decide(
    args: Seq<Seq<char>>,
    at: int,
    s: SettingsView,
    text: Seq<char>,
)
    requires
        0 <= at <= args.len(),
        settings_from(args, at, s) is Ok,
    ensures
        settings_from(args.push(text), at, s) == match flag_named(text) {
            None => Err::<SettingsView, ArgErrorView>(ArgErrorView::UnknownArgument(text)),
            Some(flag) => if takes_value(flag) {
                Err(ArgErrorView::MissingValue(text))
            } else {
                Ok(switched(settings_from(args, at, s)->Ok_0, flag))
            },
        },
    decreases args.len() - at,
{
    let longer = args.push(text);
    if at < args.len() {
        assert(longer[at] == args[at]);
        let flag = flag_named(args[at])->0;
        if !takes_value(flag) {
            lemma_last_texts_decide(args, at + 1, switched(s, flag), text);
        } else {
            assert(longer[at + 1] == args[at + 1]);
            let next = valued(s, flag, args[at], args[at + 1])->Ok_0;
            lemma_last_texts_decide(args, at + 2, next, text);
        }
    } else {
        assert(longer[at] == text);
        if flag_named(text) is Some && !takes_value(flag_named(text)->0) {
            let next = switched(s, flag_named(text)->0);
            assert(settings_from(longer, at + 1, next) == Ok::<SettingsView, ArgErrorView>(next));
        }
    }
}

/// What is refused stays refused, for the same reason, whatever follows (but for
/// a value that was missing, which may follow).
pub proof fn lemma_refusals_stand(
    args: Seq<Seq<char>>,
    at: int,
    s: SettingsView,
    more: Seq<Seq<char>>,
)
    requires
        0 <= at <= args.len(),
        settings_from(args, at, s) matches Err(error) && !(error is MissingValue),
    ensures
        settings_from(args + more, at, s) == settings_from(args, at, s),
    decreases args.len() - at,
{
    let longer = args + more;
    assert(at < args.len());
    assert(longer[at] == args[at]);
    if flag_named(args[at]) is Some {
        let flag = flag_named(args[at])->0;
        if !takes_value(flag) {
            lemma_refusals_stand(args, at + 1, switched(s, flag), more);
        } else {
            assert(longer[at + 1] == args[at + 1]);
            if let Ok(next) = valued(s, flag, args[at], args[at + 1]) {
                lemma_refusals_stand(args, at + 2, next, more);
            }
        }
    }
}

/// The configuration is what was said, setting by setting, and its label the one
/// that was given.
pub proof fn lemma_configurations_are_what_was_said(config: BenchConfig, s: SettingsView)
    requires
        configured(config, s),
    ensures
        config.backend == s.backend,
        config.elements == s.elements,
        config.dynamic == s.dynamic,
        config.clips == s.clips,
        config.overlap == s.overlap,
        config.strokes == s.strokes,
        config.flat == s.flat,
        config.gradients == s.gradients,
        config.warmup == s.warmup,
        config.frames == s.frames,
        config.out_dir@ == s.out_dir,
        config.screenshot == s.screenshot,
        s.label matches Some(label) ==> config.label@ == label,
{
}

/// The label of a run that was given none tells backend, workload and frames:
/// the stroke workload by its number of paths; the others by their number of
/// elements and what first sets them apart, flat transforms before gradients
/// before overlap before clips before gauges.
pub proof fn lemma_labels_tell_the_workload(config: BenchConfig, s: SettingsView)
    requires
        configured(config, s),
        s.label is None,
    ensures
        ({
            let name = s.backend.spec_name();
            let count = decimal(s.elements as nat);
            let end = decimal(s.frames as nat) + "f"@;
            let told = if s.strokes > 0 {
                decimal(s.strokes as nat) + "strk_"@
            } else if s.flat {
                count + "el_flat_"@
            } else if s.gradients {
                count + "el_grad_"@
            } else if s.overlap {
                count + "el_ovl_"@
            } else if s.clips > 0 {
                count + "el_"@ + decimal(s.clips as nat) + "clips_"@
            } else if s.dynamic > 0 {
                count + "el_"@ + decimal(s.dynamic as nat) + "dyn_"@
            } else {
                count + "el_"@
            };
            config.label@ == name + "_"@ + told + end
        }),
{
    let name = s.backend.spec_name();
    let count = decimal(s.elements as nat);
    let end = decimal(s.frames as nat) + "f"@;
    let told = if s.strokes > 0 {
        decimal(s.strokes as nat) + "strk_"@
    } else if s.flat {
        count + "el_flat_"@
    } else if s.gradients {
        count + "el_grad_"@
    } else if s.overlap {
        count + "el_ovl_"@
    } else if s.clips > 0 {
        count + "el_"@ + decimal(s.clips as nat) + "clips_"@
    } else if s.dynamic > 0 {
        count + "el_"@ + decimal(s.dynamic as nat) + "dyn_"@
    } else {
        count + "el_"@
    };
    assert(config.label@ =~= name + "_"@ + told + end);
}

/// A workload with clips, strokes or gradients is supported by the engine and by
/// vello alone; any other by every backend.
pub proof fn lemma_every_backend_runs_the_plain_workload(config: BenchConfig)
    ensures
        config.supported() <==> config.backend is Engine || config.backend is Vello || (config.clips
            == 0 && config.strokes == 0 && !config.gradients),
{
}


/// Four backends have a name, and a text that is none of them names none.
pub proof fn lemma_other_texts_name_no_backend(name: Seq<char>)
    requires
        name != "shapes"@,
        name != "sprites"@,
        name != "engine"@,
        name != "vello"@,
    ensures
        backend_named(name) is None,
{
}

/// A command line is accepted exactly where its settings are, and refused for the
/// reason that they give.
pub proof fn lemma_command_lines_are_refused_with_their_settings(
    args: Seq<String>,
    result: Result<BenchConfig, ArgError>,
    lines: Seq<Seq<char>>,
)
    requires
        config_outcome(result, settings_from(texts(args), 0, default_settings())),
        lines.len() == args.len(),
        forall|i: int| 0 <= i < args.len() ==> #[trigger] lines[i] == args[i]@,
    ensures
        result is Ok <==> settings_from(lines, 0, default_settings()) is Ok,
        result matches Err(error) ==> error@ == settings_from(
            lines,
            0,
            default_settings(),
        )->Err_0,
        result matches Ok(config) ==> configured(
            config,
            settings_from(lines, 0, default_settings())->Ok_0,
        ),
{
    assert(texts(args) =~= lines);
}

} // verus!
