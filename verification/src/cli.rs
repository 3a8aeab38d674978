//! The decisions of the `rtorch` command line: which command the arguments
//! ask for, the options of a formula run, the device to run on, and the
//! `.rtw` subcommands (`--pack`, `--dump`, running a container). Reading
//! files, prompting and printing stay with the caller.
//!
//! usage: `rtorch <formula.cpp|.dll> with <refs...> [--input f]... [--output f] [--device cpu|gpu]`
use crate::rtw::{DTYPE_BYTES, DTYPE_FP32, KIND_KERNEL, KIND_MEMORY, KIND_MODEL, KIND_RESULT, Rtw};
use crate::text::{ascii_eq_ignore_case, ascii_lower, eq_ignore_ascii_case, str_eq};
use vstd::bytes::u32_from_le_bytes;
use vstd::prelude::*;
use vstd::slice::slice_subrange;
use vstd::utf8::encode_utf8;

verus! {

/// Human-facing release version (date-based `YYYY.MM.DD.N`).
pub fn rt_release_version() -> (res: &'static str)
    ensures
        res@ == "2026.09.06.1"@,
{
    "2026.09.06.1"
}

pub open spec fn spec_render_kind(k: u8) -> Seq<char> {
    if k == KIND_RESULT {
        "result"@
    } else if k == KIND_KERNEL {
        "kernel"@
    } else if k == KIND_MODEL {
        "model"@
    } else if k == KIND_MEMORY {
        "memory"@
    } else {
        "unknown"@
    }
}

/// The name `--dump` prints for a container kind.
pub fn render_kind(k: u8) -> (res: &'static str)
    ensures
        res@ == spec_render_kind(k),
{
    if k == KIND_RESULT {
        "result"
    } else if k == KIND_KERNEL {
        "kernel"
    } else if k == KIND_MODEL {
        "model"
    } else if k == KIND_MEMORY {
        "memory"
    } else {
        "unknown"
    }
}

pub open spec fn args_view(args: Seq<String>) -> Seq<Seq<char>> {
    args.map_values(|s: String| s@)
}

/// What the command line asks for.
#[derive(Clone, Copy, Debug, PartialEq, Eq, Structural)]
pub enum Command {
    Version,
    Help,
    VkSmoke,
    Dump,
    Pack,
    RunContainer,
    RunFormula,
}

/// `s` ends with `suffix`.
pub open spec fn ends_with(s: Seq<char>, suffix: Seq<char>) -> bool {
    suffix.len() <= s.len() && s.subrange(s.len() - suffix.len(), s.len() as int) == suffix
}

pub open spec fn spec_command(args: Seq<Seq<char>>) -> Command {
    if args.contains("--version"@) || args.contains("-V"@) {
        Command::Version
    } else if args.contains("--help"@) || args.contains("-h"@) {
        Command::Help
    } else if args.contains("--vk-smoke"@) {
        Command::VkSmoke
    } else if args.len() > 1 && args[1] == "--dump"@ {
        Command::Dump
    } else if args.len() > 1 && args[1] == "--pack"@ {
        Command::Pack
    } else if args.len() > 1 && ends_with(args[1], ".rtw"@) {
        Command::RunContainer
    } else {
        Command::RunFormula
    }
}

fn any_is(args: &[String], a: &str, b: &str) -> (res: bool)
    ensures
        res == (args_view(args@).contains(a@) || args_view(args@).contains(b@)),
{
    let ghost v = args_view(args@);
    let mut i: usize = 0;
    while i < args.len()
        invariant
            v == args_view(args@),
            0 <= i <= args@.len(),
            forall|k: int| 0 <= k < i ==> v[k] != a@ && v[k] != b@,
        decreases args@.len() - i,
    {
        if str_eq(args[i].as_str(), a) || str_eq(args[i].as_str(), b) {
            assert(v[i as int] == args@[i as int]@);
            return true;
        }
        i = i + 1;
    }
    false
}

fn str_ends_with(s: &str, suffix: &str) -> (res: bool)
    ensures
        res == ends_with(s@, suffix@),
{
    let n = s.unicode_len();
    let m = suffix.unicode_len();
    if m > n {
        return false;
    }
    let mut i: usize = 0;
    while i < m
        invariant
            n == s@.len(),
            m == suffix@.len(),
            m <= n,
            0 <= i <= m,
            forall|k: int| 0 <= k < i ==> s@[n - m + k] == suffix@[k],
        decreases m - i,
    {
        if s.get_char(n - m + i) != suffix.get_char(i) {
            assert(s@.subrange(n - m, n as int)[i as int] != suffix@[i as int]);
            return false;
        }
        i = i + 1;
    }
    assert(s@.subrange(n - m, n as int) =~= suffix@);
    true
}

/// Which command the arguments ask for; `--version`, `--help` and
/// `--vk-smoke` win wherever they stand, the `.rtw` subcommands are named by
/// the first argument.
pub fn command(args: &[String]) -> (res: Command)
    ensures
        res == spec_command(args_view(args@)),
{
    if any_is(args, "--version", "-V") {
        return Command::Version;
    }
    if any_is(args, "--help", "-h") {
        return Command::Help;
    }
    if any_is(args, "--vk-smoke", "--vk-smoke") {
        return Command::VkSmoke;
    }
    if args.len() > 1 {
        let sub = args[1].as_str();
        if str_eq(sub, "--dump") {
            return Command::Dump;
        }
        if str_eq(sub, "--pack") {
            return Command::Pack;
        }
        if str_ends_with(sub, ".rtw") {
            return Command::RunContainer;
        }
    }
    Command::RunFormula
}

/// Asking for help: wherever `-h` or `--help` stands among the arguments,
/// and no version flag is given, the command is help, whatever else the
/// arguments hold; the short and the long flag are interchangeable.
pub proof fn lemma_help_flags(args: Seq<Seq<char>>)
    requires
        args.contains("-h"@) || args.contains("--help"@),
        !args.contains("--version"@),
        !args.contains("-V"@),
    ensures
        spec_command(args) == Command::Help,
        spec_command(args.push("-h"@)) == Command::Help,
        spec_command(args.push("--help"@)) == Command::Help,
{
    let short = args.push("-h"@);
    let long = args.push("--help"@);
    assert(short[short.len() - 1] == "-h"@);
    assert(long[long.len() - 1] == "--help"@);
    assert(!short.contains("--version"@) && !short.contains("-V"@)) by {
        assert forall|k: int| 0 <= k < short.len() implies short[k] != "--version"@ && short[k]
            != "-V"@ by {
            if k < args.len() {
                assert(short[k] == args[k]);
            } else {
                assert("-h"@ != "--version"@ && "-h"@ != "-V"@) by {
                    reveal_strlit("-h");
                    reveal_strlit("--version");
                    reveal_strlit("-V");
                    assert("-h"@.len() != "--version"@.len());
                    assert("-h"@[1] != "-V"@[1]);
                }
            }
        }
    }
    assert(!long.contains("--version"@) && !long.contains("-V"@)) by {
        assert forall|k: int| 0 <= k < long.len() implies long[k] != "--version"@ && long[k]
            != "-V"@ by {
            if k < args.len() {
                assert(long[k] == args[k]);
            } else {
                assert("--help"@ != "--version"@ && "--help"@ != "-V"@) by {
                    reveal_strlit("--help");
                    reveal_strlit("--version");
                    reveal_strlit("-V");
                }
            }
        }
    }
}

/// A version flag anywhere among the arguments asks for the version, ahead
/// of every other flag.
pub proof fn lemma_version_flags(args: Seq<Seq<char>>, extra: Seq<Seq<char>>)
    requires
        args.contains("--version"@) || args.contains("-V"@),
    ensures
        spec_command(args) == Command::Version,
        spec_command(args + extra) == Command::Version,
        spec_command(extra + args) == Command::Version,
{
    let k = choose|k: int| 0 <= k < args.len() && (args[k] == "--version"@ || args[k] == "-V"@);
    assert((args + extra)[k] == args[k]);
    assert((extra + args)[extra.len() + k] == args[k]);
}

/// The `.rtw` subcommands are named by the first argument alone: arguments
/// added after it that are none of the version, help and `--vk-smoke` flags
/// leave the command as it was.
pub proof fn lemma_command_named_by_first(args: Seq<Seq<char>>, extra: Seq<Seq<char>>)
    requires
        args.len() >= 2,
        !extra.contains("--version"@),
        !extra.contains("-V"@),
        !extra.contains("--help"@),
        !extra.contains("-h"@),
        !extra.contains("--vk-smoke"@),
    ensures
        spec_command(args + extra) == spec_command(args),
{
    let b = args + extra;
    assert(b[1] == args[1]);
    assert forall|x: Seq<char>|
        x == "--version"@ || x == "-V"@ || x == "--help"@ || x == "-h"@ || x == "--vk-smoke"@
        implies #[trigger] b.contains(x) == args.contains(x) by {
        if b.contains(x) {
            let k = choose|k: int| 0 <= k < b.len() && b[k] == x;
            if k >= args.len() {
                assert(extra[k - args.len()] == x);
            }
        }
        if args.contains(x) {
            let k = choose|k: int| 0 <= k < args.len() && args[k] == x;
            assert(b[k] == x);
        }
    }
}

/// The options of a formula run. `device` is -1 for auto, 0 for the CPU and
/// 1 for the GPU.
#[derive(Debug, Clone)]
pub struct Opts {
    pub formula: String,
    pub refs: Vec<String>,
    pub inputs: Vec<String>,
    pub output: Option<String>,
    pub device: i32,
}

pub struct OptsView {
    pub formula: Seq<char>,
    pub refs: Seq<Seq<char>>,
    pub inputs: Seq<Seq<char>>,
    pub output: Option<Seq<char>>,
    pub device: i32,
}

pub open spec fn opt_string_view(s: Option<String>) -> Option<Seq<char>> {
    match s {
        Some(x) => Some(x@),
        None => None,
    }
}

impl View for Opts {
    type V = OptsView;

    open spec fn view(&self) -> OptsView {
        OptsView {
            formula: self.formula@,
            refs: args_view(self.refs@),
            inputs: args_view(self.inputs@),
            output: opt_string_view(self.output),
            device: self.device,
        }
    }
}

/// The state of the argument scan.
pub struct ScanState {
    pub formula: Option<Seq<char>>,
    pub refs: Seq<Seq<char>>,
    pub inputs: Seq<Seq<char>>,
    pub output: Option<Seq<char>>,
    pub device: i32,
    pub after_with: bool,
}

/// The device a `--device` value selects, or `current` if it names none.
pub open spec fn device_choice(d: Seq<char>, current: i32) -> i32 {
    if ascii_eq_ignore_case(encode_utf8(d), encode_utf8("gpu"@)) {
        1
    } else if ascii_eq_ignore_case(encode_utf8(d), encode_utf8("cpu"@)) {
        0
    } else {
        current
    }
}

/// Scanning the arguments from index `i`: `--input`/`--output`/`--device`
/// take the next argument (and fail when there is none), `with` switches to
/// reference files, and any other argument is the formula (the first one
/// before `with`) or a reference.
pub open spec fn scan_args(args: Seq<Seq<char>>, i: int, st: ScanState) -> Option<ScanState>
    decreases args.len() - i,
{
    if i < 0 || i >= args.len() {
        Some(st)
    } else {
        let a = args[i];
        if a == "--input"@ {
            if i + 1 < args.len() {
                scan_args(args, i + 2, ScanState { inputs: st.inputs.push(args[i + 1]), ..st })
            } else {
                None
            }
        } else if a == "--output"@ {
            if i + 1 < args.len() {
                scan_args(args, i + 2, ScanState { output: Some(args[i + 1]), ..st })
            } else {
                None
            }
        } else if a == "--device"@ {
            if i + 1 < args.len() {
                scan_args(
                    args,
                    i + 2,
                    ScanState { device: device_choice(args[i + 1], st.device), ..st },
                )
            } else {
                None
            }
        } else if a == "with"@ {
            scan_args(args, i + 1, ScanState { after_with: true, ..st })
        } else if !st.after_with && st.formula is None {
            scan_args(args, i + 1, ScanState { formula: Some(a), ..st })
        } else {
            scan_args(args, i + 1, ScanState { refs: st.refs.push(a), ..st })
        }
    }
}

pub open spec fn initial_scan() -> ScanState {
    ScanState {
        formula: None,
        refs: Seq::empty(),
        inputs: Seq::empty(),
        output: None,
        device: -1i32,
        after_with: false,
    }
}

/// The options the arguments (after the program name) describe; `None`
/// when a flag lacks its value or no formula is named.
pub open spec fn spec_parse_args(args: Seq<Seq<char>>) -> Option<OptsView> {
    match scan_args(args, 1, initial_scan()) {
        Some(st) => match st.formula {
            Some(f) => Some(
                OptsView {
                    formula: f,
                    refs: st.refs,
                    inputs: st.inputs,
                    output: st.output,
                    device: st.device,
                },
            ),
            None => None,
        },
        None => None,
    }
}

pub fn parse_args(args: &[String]) -> (res: Option<Opts>)
    ensures
        match spec_parse_args(args_view(args@)) {
            Some(o) => res matches Some(r) && r@ == o,
            None => res is None,
        },
{
    let ghost av = args_view(args@);
    let mut formula: Option<String> = None;
    let mut refs: Vec<String> = Vec::new();
    let mut inputs: Vec<String> = Vec::new();
    let mut output: Option<String> = None;
    let mut device: i32 = -1;
    let mut after_with = false;
    let mut i: usize = 1;
    proof {
        assert(args_view(refs@) =~= Seq::<Seq<char>>::empty());
        assert(args_view(inputs@) =~= Seq::<Seq<char>>::empty());
    }
    while i < args.len()
        invariant
            av == args_view(args@),
            1 <= i,
            scan_args(av, 1, initial_scan()) == scan_args(
                av,
                i as int,
                ScanState {
                    formula: opt_string_view(formula),
                    refs: args_view(refs@),
                    inputs: args_view(inputs@),
                    output: opt_string_view(output),
                    device,
                    after_with,
                },
            ),
        decreases args@.len() - i,
    {
        let a = args[i].as_str();
        assert(av[i as int] == a@);
        if str_eq(a, "--input") {
            if i + 1 >= args.len() {
                return None;
            }
            proof {
                assert(args_view(inputs@.push(args@[i + 1])) =~= args_view(inputs@).push(
                    av[i + 1],
                ));
            }
            inputs.push(args[i + 1].clone());
            i = i + 2;
        } else if str_eq(a, "--output") {
            if i + 1 >= args.len() {
                return None;
            }
            output = Some(args[i + 1].clone());
            i = i + 2;
        } else if str_eq(a, "--device") {
            if i + 1 >= args.len() {
                return None;
            }
            let d = args[i + 1].as_str();
            if eq_ignore_ascii_case(d, "gpu") {
                device = 1;
            } else if eq_ignore_ascii_case(d, "cpu") {
                device = 0;
            }
            i = i + 2;
        } else if str_eq(a, "with") {
            after_with = true;
            i = i + 1;
        } else {
            if !after_with && formula.is_none() {
                formula = Some(args[i].clone());
            } else {
                proof {
                    assert(args_view(refs@.push(args@[i as int])) =~= args_view(refs@).push(
                        av[i as int],
                    ));
                }
                refs.push(args[i].clone());
            }
            i = i + 1;
        }
    }
    match formula {
        Some(f) => Some(Opts { formula: f, refs, inputs, output, device }),
        None => None,
    }
}

/// Scanning `a + t` from `i` passes through the state that scanning `a`
/// alone ends in, then goes on at the end of `a`.
proof fn lemma_scan_args_split(a: Seq<Seq<char>>, t: Seq<Seq<char>>, i: int, st: ScanState)
    requires
        0 <= i <= a.len(),
        scan_args(a, i, st) is Some,
    ensures
        scan_args(a + t, i, st) == scan_args(a + t, a.len() as int, scan_args(a, i, st)->0),
    decreases a.len() - i,
{
    let b = a + t;
    if i < a.len() {
        let x = a[i];
        assert(b[i] == x);
        if x == "--input"@ {
            assert(b[i + 1] == a[i + 1]);
            lemma_scan_args_split(a, t, i + 2, ScanState { inputs: st.inputs.push(a[i + 1]), ..st });
        } else if x == "--output"@ {
            assert(b[i + 1] == a[i + 1]);
            lemma_scan_args_split(a, t, i + 2, ScanState { output: Some(a[i + 1]), ..st });
        } else if x == "--device"@ {
            assert(b[i + 1] == a[i + 1]);
            lemma_scan_args_split(
                a,
                t,
                i + 2,
                ScanState { device: device_choice(a[i + 1], st.device), ..st },
            );
        } else if x == "with"@ {
            lemma_scan_args_split(a, t, i + 1, ScanState { after_with: true, ..st });
        } else if !st.after_with && st.formula is None {
            lemma_scan_args_split(a, t, i + 1, ScanState { formula: Some(x), ..st });
        } else {
            lemma_scan_args_split(a, t, i + 1, ScanState { refs: st.refs.push(x), ..st });
        }
    }
}

/// `--input` may be repeated: one more `--input <file>` at the end of a
/// command line that parses adds that file after the inputs already named,
/// keeping them all in order, and changes nothing else. So the inputs are
/// the values of the `--input` flags, one for each, in the order given.
pub proof fn lemma_parse_args_input_appends(args: Seq<Seq<char>>, file: Seq<char>)
    requires
        args.len() >= 1,
        spec_parse_args(args) is Some,
    ensures
        spec_parse_args(args + seq!["--input"@, file]) == Some(
            OptsView {
                inputs: spec_parse_args(args)->0.inputs.push(file),
                ..spec_parse_args(args)->0
            },
        ),
{
    let t = seq!["--input"@, file];
    let b = args + t;
    lemma_scan_args_split(args, t, 1, initial_scan());
    let r = scan_args(args, 1, initial_scan())->0;
    let n = args.len() as int;
    assert(b[n] == "--input"@);
    assert(b[n + 1] == file);
    let r2 = ScanState { inputs: r.inputs.push(file), ..r };
    assert(scan_args(b, n + 2, r2) == Some(r2));
}

/// Once the formula is named, every further plain argument is a reference,
/// in the order given: one more at the end of a command line that parses
/// adds it after the references already named and changes nothing else.
pub proof fn lemma_parse_args_ref_appends(args: Seq<Seq<char>>, arg: Seq<char>)
    requires
        args.len() >= 1,
        spec_parse_args(args) is Some,
        arg != "--input"@,
        arg != "--output"@,
        arg != "--device"@,
        arg != "with"@,
    ensures
        spec_parse_args(args.push(arg)) == Some(
            OptsView { refs: spec_parse_args(args)->0.refs.push(arg), ..spec_parse_args(args)->0 },
        ),
{
    let t = seq![arg];
    let b = args + t;
    assert(b =~= args.push(arg));
    lemma_scan_args_split(args, t, 1, initial_scan());
    let r = scan_args(args, 1, initial_scan())->0;
    let n = args.len() as int;
    assert(b[n] == arg);
    let r2 = ScanState { refs: r.refs.push(arg), ..r };
    assert(scan_args(b, n + 1, r2) == Some(r2));
}

/// The last `--output` and the last `--device` given win: one more of
/// either at the end of a command line that parses sets that option from
/// its value and changes nothing else.
pub proof fn lemma_parse_args_last_output_device(args: Seq<Seq<char>>, value: Seq<char>)
    requires
        args.len() >= 1,
        spec_parse_args(args) is Some,
    ensures
        spec_parse_args(args + seq!["--output"@, value]) == Some(
            OptsView { output: Some(value), ..spec_parse_args(args)->0 },
        ),
        spec_parse_args(args + seq!["--device"@, value]) == Some(
            OptsView {
                device: device_choice(value, spec_parse_args(args)->0.device),
                ..spec_parse_args(args)->0
            },
        ),
        value == "gpu"@ ==> spec_parse_args(args + seq!["--device"@, value])->0.device == 1,
        value == "cpu"@ ==> spec_parse_args(args + seq!["--device"@, value])->0.device == 0,
{
    let r = scan_args(args, 1, initial_scan())->0;
    let n = args.len() as int;
    let t1 = seq!["--output"@, value];
    let b1 = args + t1;
    lemma_scan_args_split(args, t1, 1, initial_scan());
    assert(b1[n] == "--output"@);
    assert(b1[n + 1] == value);
    assert("--output"@ != "--input"@) by {
        reveal_strlit("--output");
        reveal_strlit("--input");
        assert("--output"@[3] != "--input"@[3]);
    }
    let r1 = ScanState { output: Some(value), ..r };
    assert(scan_args(b1, n + 2, r1) == Some(r1));
    let t2 = seq!["--device"@, value];
    let b2 = args + t2;
    lemma_scan_args_split(args, t2, 1, initial_scan());
    assert(b2[n] == "--device"@);
    assert(b2[n + 1] == value);
    assert("--device"@ != "--input"@ && "--device"@ != "--output"@) by {
        reveal_strlit("--output");
        reveal_strlit("--input");
        reveal_strlit("--device");
        assert("--device"@[2] != "--input"@[2]);
        assert("--device"@[2] != "--output"@[2]);
    }
    let r2 = ScanState { device: device_choice(value, r.device), ..r };
    assert(scan_args(b2, n + 2, r2) == Some(r2));
    let c = encode_utf8("cpu"@);
    let g = encode_utf8("gpu"@);
    assert(ascii_eq_ignore_case(c, c) && ascii_eq_ignore_case(g, g));
    reveal_strlit("cpu");
    reveal_strlit("gpu");
    assert(c[0] == (('c' as u32) & 0x7F) as u8);
    assert(g[0] == (('g' as u32) & 0x7F) as u8);
    assert((0x63u32 & 0x7F) as u8 == 0x63u8) by (bit_vector);
    assert((0x67u32 & 0x7F) as u8 == 0x67u8) by (bit_vector);
    assert(ascii_lower(0x63u8) != ascii_lower(0x67u8));
    assert(!ascii_eq_ignore_case(c, g));
}

/// The device a run uses: an explicit `--device` wins; otherwise the GPU
/// when one was discovered, else the CPU.
pub fn resolve_device(requested: i32, gpu_count: u32) -> (res: i32)
    ensures
        res == (if requested >= 0 {
            requested
        } else if gpu_count > 0 {
            1
        } else {
            0
        }),
{
    if requested >= 0 {
        requested
    } else if gpu_count > 0 {
        1
    } else {
        0
    }
}

/// An explicit `--device gpu` with no GPU discovered, which must be reported
/// rather than crash.
pub fn gpu_requested_but_missing(requested: i32, gpu_count: u32) -> (res: bool)
    ensures
        res == (requested == 1 && gpu_count == 0),
{
    requested == 1 && gpu_count == 0
}

/// The arguments of `--pack <formula.cpp> -o <x.rtw>` (from index 2 on):
/// `-o` takes the next argument as the output (none if it is missing), the
/// first other argument is the formula.
pub open spec fn scan_pack(args: Seq<Seq<char>>, i: int, formula: Option<Seq<char>>, out: Option<
    Seq<char>,
>) -> (Option<Seq<char>>, Option<Seq<char>>)
    decreases args.len() - i,
{
    if i < 0 || i >= args.len() {
        (formula, out)
    } else if args[i] == "-o"@ {
        if i + 1 < args.len() {
            scan_pack(args, i + 2, formula, Some(args[i + 1]))
        } else {
            (formula, None)
        }
    } else if formula is None {
        scan_pack(args, i + 1, Some(args[i]), out)
    } else {
        scan_pack(args, i + 1, formula, out)
    }
}

pub open spec fn spec_pack_args(args: Seq<Seq<char>>) -> Option<(Seq<char>, Seq<char>)> {
    match scan_pack(args, 2, None, None) {
        (Some(f), Some(o)) => Some((f, o)),
        _ => None,
    }
}

/// The formula source and output path of `--pack`, if both are given.
pub fn pack_args(args: &[String]) -> (res: Option<(String, String)>)
    ensures
        match spec_pack_args(args_view(args@)) {
            Some((f, o)) => res matches Some((rf, ro)) && rf@ == f && ro@ == o,
            None => res is None,
        },
{
    let ghost av = args_view(args@);
    let mut formula: Option<String> = None;
    let mut out: Option<String> = None;
    let mut i: usize = 2;
    while i < args.len()
        invariant
            av == args_view(args@),
            2 <= i,
            scan_pack(av, 2, None, None) == scan_pack(
                av,
                i as int,
                opt_string_view(formula),
                opt_string_view(out),
            ),
        ensures
            scan_pack(av, 2, None, None) == (opt_string_view(formula), opt_string_view(out)),
        decreases args@.len() - i,
    {
        assert(av[i as int] == args@[i as int]@);
        if str_eq(args[i].as_str(), "-o") {
            if i + 1 < args.len() {
                out = Some(args[i + 1].clone());
                i = i + 2;
            } else {
                // `-o` without a value: no output path.
                out = None;
                break ;
            }
        } else {
            if formula.is_none() {
                formula = Some(args[i].clone());
            }
            i = i + 1;
        }
    }
    match (formula, out) {
        (Some(f), Some(o)) => Some((f, o)),
        _ => None,
    }
}

/// The container `--pack` writes: kind kernel, dtype bytes, no shape or
/// data, the formula source as the embedded kernel.
pub fn pack_container(src: Vec<u8>) -> (res: Rtw)
    ensures
        res.kind == KIND_KERNEL,
        res.dtype == DTYPE_BYTES,
        res.shape@.len() == 0,
        res.data@.len() == 0,
        res.kernel matches Some(k) && k@ == src@,
{
    Rtw { kind: KIND_KERNEL, dtype: DTYPE_BYTES, shape: Vec::new(), data: Vec::new(), kernel: Some(src) }
}

/// Why a container cannot be run.
#[derive(Clone, Copy, Debug, PartialEq, Eq, Structural)]
pub enum RunRefusal {
    /// The container is not of kind kernel.
    NotKernel,
    /// A kernel container without embedded source.
    NoSource,
}

/// The embedded formula source of a runnable container.
pub fn kernel_source(rtw: &Rtw) -> (res: Result<&Vec<u8>, RunRefusal>)
    ensures
        rtw.kind != KIND_KERNEL ==> res == Err::<&Vec<u8>, RunRefusal>(RunRefusal::NotKernel),
        rtw.kind == KIND_KERNEL && rtw.kernel is None ==> res == Err::<&Vec<u8>, RunRefusal>(
            RunRefusal::NoSource,
        ),
        rtw.kind == KIND_KERNEL && rtw.kernel is Some ==> (res matches Ok(k) && rtw.kernel
            == Some(*k)),
{
    if rtw.kind != KIND_KERNEL {
        return Err(RunRefusal::NotKernel);
    }
    match &rtw.kernel {
        Some(k) => Ok(k),
        None => Err(RunRefusal::NoSource),
    }
}

/// The flags a container run passes through to the formula run.
pub open spec fn is_passed_flag(a: Seq<char>) -> bool {
    a == "--input"@ || a == "--output"@ || a == "--device"@
}

/// Copying `--input`/`--output`/`--device` and their values from index `i`
/// on, after `acc`.
pub open spec fn scan_passed(args: Seq<Seq<char>>, i: int, acc: Seq<Seq<char>>) -> Seq<Seq<char>>
    decreases args.len() - i,
{
    if i < 0 || i >= args.len() {
        acc
    } else if is_passed_flag(args[i]) {
        if i + 1 < args.len() {
            scan_passed(args, i + 2, acc.push(args[i]).push(args[i + 1]))
        } else {
            scan_passed(args, i + 1, acc.push(args[i]))
        }
    } else {
        scan_passed(args, i + 1, acc)
    }
}

/// The argument list of the formula run behind `rtorch <x.rtw> ...`: the
/// program name, the extracted source file, then the passed-through flags.
pub fn container_run_args(args: &[String], source_file: String) -> (res: Vec<String>)
    ensures
        args_view(res@) == scan_passed(args_view(args@), 2, seq!["rtorch"@, source_file@]),
{
    let ghost av = args_view(args@);
    let mut run: Vec<String> = Vec::new();
    run.push("rtorch".to_owned());
    run.push(source_file);
    assert(args_view(run@) =~= seq!["rtorch"@, source_file@]);
    let mut i: usize = 2;
    while i < args.len()
        invariant
            av == args_view(args@),
            2 <= i,
            scan_passed(av, 2, seq!["rtorch"@, source_file@]) == scan_passed(
                av,
                i as int,
                args_view(run@),
            ),
        decreases args@.len() - i,
    {
        let a = args[i].as_str();
        assert(av[i as int] == a@);
        if str_eq(a, "--input") || str_eq(a, "--output") || str_eq(a, "--device") {
            let ghost before = args_view(run@);
            run.push(args[i].clone());
            if i + 1 < args.len() {
                run.push(args[i + 1].clone());
                proof {
                    assert(args_view(run@) =~= before.push(av[i as int]).push(av[i + 1]));
                }
                i = i + 1;
            } else {
                proof {
                    assert(args_view(run@) =~= before.push(av[i as int]));
                }
            }
        }
        i = i + 1;
    }
    run
}

/// Scanning `a + t` from `i` copies what scanning `a` alone copies, then
/// goes on at the end of `a`, provided `a` does not end in a pass-through
/// flag still waiting for its value.
proof fn lemma_scan_passed_split(a: Seq<Seq<char>>, t: Seq<Seq<char>>, i: int, acc: Seq<Seq<char>>)
    requires
        0 <= i <= a.len(),
        i == a.len() || !is_passed_flag(a[a.len() - 1]),
    ensures
        scan_passed(a + t, i, acc) == scan_passed(a + t, a.len() as int, scan_passed(a, i, acc)),
    decreases a.len() - i,
{
    let b = a + t;
    if i < a.len() {
        assert(b[i] == a[i]);
        if is_passed_flag(a[i]) {
            assert(i + 1 < a.len());
            assert(b[i + 1] == a[i + 1]);
            lemma_scan_passed_split(a, t, i + 2, acc.push(a[i]).push(a[i + 1]));
        } else {
            lemma_scan_passed_split(a, t, i + 1, acc);
        }
    }
}

/// Each of `--input`, `--output` and `--device` given after the container
/// reaches the formula run together with the argument that follows it: one
/// more flag and value at the end of the command line add exactly that flag
/// and value at the end of the forwarded arguments, the same for all three.
pub proof fn lemma_container_run_args_append(
    args: Seq<Seq<char>>,
    source: Seq<char>,
    flag: Seq<char>,
    value: Seq<char>,
)
    requires
        args.len() >= 2,
        flag == "--input"@ || flag == "--output"@ || flag == "--device"@,
        args.len() == 2 || !is_passed_flag(args[args.len() - 1]),
    ensures
        scan_passed(args + seq![flag, value], 2, seq!["rtorch"@, source]) == scan_passed(
            args,
            2,
            seq!["rtorch"@, source],
        ) + seq![flag, value],
{
    let base = seq!["rtorch"@, source];
    let t = seq![flag, value];
    let b = args + t;
    lemma_scan_passed_split(args, t, 2, base);
    let mid = scan_passed(args, 2, base);
    let n = args.len() as int;
    assert(b[n] == flag);
    assert(b[n + 1] == value);
    assert(scan_passed(b, n + 2, mid.push(flag).push(value)) == mid.push(flag).push(value));
    assert(mid.push(flag).push(value) =~= mid + t);
}

/// Only the program name and the source file start the forwarded
/// arguments, and any other argument after the container is not forwarded:
/// one more at the end of the command line leaves them as they were.
pub proof fn lemma_container_run_args_rest(args: Seq<Seq<char>>, source: Seq<char>, arg: Seq<char>)
    requires
        args.len() >= 2,
        arg != "--input"@,
        arg != "--output"@,
        arg != "--device"@,
        args.len() == 2 || !is_passed_flag(args[args.len() - 1]),
    ensures
        scan_passed(args.subrange(0, 2), 2, seq!["rtorch"@, source]) == seq!["rtorch"@, source],
        scan_passed(args.push(arg), 2, seq!["rtorch"@, source]) == scan_passed(
            args,
            2,
            seq!["rtorch"@, source],
        ),
{
    let base = seq!["rtorch"@, source];
    let t = seq![arg];
    let b = args + t;
    assert(b =~= args.push(arg));
    lemma_scan_passed_split(args, t, 2, base);
    let n = args.len() as int;
    let mid = scan_passed(args, 2, base);
    assert(b[n] == arg);
    assert(!is_passed_flag(arg));
    assert(scan_passed(b, n + 1, mid) == mid);
    assert(scan_passed(b, n, mid) == mid);
}

/// The values `--dump` previews: for an fp32 result container, the first
/// (up to) twelve elements as f32 bit patterns; nothing otherwise.
pub open spec fn spec_dump_preview(kind: u8, dtype: u8, data: Seq<u8>) -> Seq<u32> {
    if kind == KIND_RESULT && dtype == DTYPE_FP32 {
        let n = data.len() / 4;
        let shown = if n < 12 {
            n
        } else {
            12
        };
        crate::wire::words_at(data, 0, shown as nat)
    } else {
        Seq::empty()
    }
}

pub fn dump_preview(rtw: &Rtw) -> (res: Vec<u32>)
    ensures
        res@ == spec_dump_preview(rtw.kind, rtw.dtype, rtw.data@),
{
    let mut out: Vec<u32> = Vec::new();
    if rtw.kind == KIND_RESULT && rtw.dtype == DTYPE_FP32 {
        let n = rtw.data.len() / 4;
        let shown = if n < 12 {
            n
        } else {
            12
        };
        let mut i: usize = 0;
        while i < shown
            invariant
                n == rtw.data@.len() / 4,
                shown <= n,
                shown <= 12,
                0 <= i <= shown,
                out@ == crate::wire::words_at(rtw.data@, 0, shown as nat).subrange(0, i as int),
            decreases shown - i,
        {
            let w = u32_from_le_bytes(slice_subrange(rtw.data.as_slice(), 4 * i, 4 * i + 4));
            out.push(w);
            i = i + 1;
            assert(out@ =~= crate::wire::words_at(rtw.data@, 0, shown as nat).subrange(
                0,
                i as int,
            ));
        }
        assert(out@ =~= crate::wire::words_at(rtw.data@, 0, shown as nat));
    } else {
        assert(out@ =~= Seq::<u32>::empty());
    }
    out
}

} // verus!
