//! Reading the command line into options.

use vstd::prelude::*;
use crate::geometry::Rect;
use crate::rect_spec::{all_digits, digits_value, is_digit, lemma_digits_value_grows, parse_rect_spec, rect_from_spec};
use crate::text::str_chars;

verus! {

/// What a command-line word is.
#[derive(Clone, Copy, Debug, PartialEq, Eq, Structural)]
pub enum ArgKind {
    Fps,
    LogFile,
    Template,
    WindowTitle,
    GameRect,
    DryRunFrames,
    Deadzone,
    CartSpeed,
    MinBootSpeed,
    Debug,
    NoStartup,
    NoClickFocus,
    NoControl,
    UseShm,
    FullWindow,
    ListWindows,
    Help,
    Other,
}

/// An option read from the command line. Options that take a value carry
/// the index of that value among the arguments (`None` when the option was
/// the last argument), or the value already read when it is a crop
/// rectangle or a frame count (`None` when missing or unreadable).
#[derive(Clone, Copy, Debug, PartialEq, Eq, Structural)]
pub enum CliOption {
    Fps(Option<usize>),
    LogFile(Option<usize>),
    Template(Option<usize>),
    WindowTitle(Option<usize>),
    GameRect(Option<Rect>),
    DryRunFrames(Option<u64>),
    Deadzone(Option<usize>),
    CartSpeed(Option<usize>),
    MinBootSpeed(Option<usize>),
    Debug,
    NoStartup,
    NoClickFocus,
    NoControl,
    UseShm,
    FullWindow,
    ListWindows,
    Help,
}

/// The option that the word `a` names.
pub open spec fn arg_kind(a: Seq<char>) -> ArgKind {
    if a == "--fps"@ {
        ArgKind::Fps
    } else if a == "--log-file"@ {
        ArgKind::LogFile
    } else if a == "--template"@ {
        ArgKind::Template
    } else if a == "--window-title"@ || a == "--title"@ {
        ArgKind::WindowTitle
    } else if a == "--debug"@ {
        ArgKind::Debug
    } else if a == "--no-startup"@ {
        ArgKind::NoStartup
    } else if a == "--no-click-focus"@ {
        ArgKind::NoClickFocus
    } else if a == "--no-control"@ {
        ArgKind::NoControl
    } else if a == "--use-shm"@ {
        ArgKind::UseShm
    } else if a == "--full-window"@ {
        ArgKind::FullWindow
    } else if a == "--game-rect"@ {
        ArgKind::GameRect
    } else if a == "--dry-run-frames"@ {
        ArgKind::DryRunFrames
    } else if a == "--list-windows"@ {
        ArgKind::ListWindows
    } else if a == "--deadzone"@ {
        ArgKind::Deadzone
    } else if a == "--cart-speed"@ {
        ArgKind::CartSpeed
    } else if a == "--min-boot-speed"@ {
        ArgKind::MinBootSpeed
    } else if a == "--help"@ || a == "-h"@ {
        ArgKind::Help
    } else {
        ArgKind::Other
    }
}

/// The `u64` that `s` writes, as `u64::from_str` reads it: an optional `+`
/// then one or more decimal digits; `None` for anything else and for values
/// above `u64::MAX`.
pub open spec fn parse_u64(s: Seq<char>) -> Option<u64> {
    let digits = if s.len() > 0 && s[0] == '+' { s.drop_first() } else { s };
    if digits.len() == 0 || !all_digits(digits) || digits_value(digits) > u64::MAX {
        None
    } else {
        Some(digits_value(digits) as u64)
    }
}

/// The kinds of option that take the next argument as their value.
pub open spec fn takes_value(k: ArgKind) -> bool {
    k == ArgKind::Fps || k == ArgKind::LogFile || k == ArgKind::Template || k == ArgKind::WindowTitle
        || k == ArgKind::GameRect || k == ArgKind::DryRunFrames || k == ArgKind::Deadzone || k
        == ArgKind::CartSpeed || k == ArgKind::MinBootSpeed
}

/// The option of kind `k` whose value, if any, is argument `v`.
pub open spec fn valued_option(args: Seq<Seq<char>>, k: ArgKind, v: int) -> CliOption {
    let idx: Option<usize> = if v < args.len() { Some(v as usize) } else { None };
    match k {
        ArgKind::Fps => CliOption::Fps(idx),
        ArgKind::LogFile => CliOption::LogFile(idx),
        ArgKind::Template => CliOption::Template(idx),
        ArgKind::WindowTitle => CliOption::WindowTitle(idx),
        ArgKind::GameRect => CliOption::GameRect(
            if v < args.len() { rect_from_spec(args[v]) } else { None },
        ),
        ArgKind::DryRunFrames => CliOption::DryRunFrames(
            if v < args.len() { parse_u64(args[v]) } else { None },
        ),
        ArgKind::Deadzone => CliOption::Deadzone(idx),
        ArgKind::CartSpeed => CliOption::CartSpeed(idx),
        _ => CliOption::MinBootSpeed(idx),
    }
}

/// The flag option of kind `k`.
pub open spec fn flag_option(k: ArgKind) -> CliOption {
    match k {
        ArgKind::Debug => CliOption::Debug,
        ArgKind::NoStartup => CliOption::NoStartup,
        ArgKind::NoClickFocus => CliOption::NoClickFocus,
        ArgKind::NoControl => CliOption::NoControl,
        ArgKind::UseShm => CliOption::UseShm,
        ArgKind::FullWindow => CliOption::FullWindow,
        _ => CliOption::ListWindows,
    }
}

/// The options read from `args[i..]`: an option that takes a value takes
/// the next argument, whatever it is; unknown words are skipped; reading
/// stops after a help request.
pub open spec fn options_from(args: Seq<Seq<char>>, i: int) -> Seq<CliOption>
    decreases args.len() + 1 - i,
{
    if i < 0 || i >= args.len() {
        Seq::empty()
    } else {
        let k = arg_kind(args[i]);
        if k == ArgKind::Help {
            seq![CliOption::Help]
        } else if k == ArgKind::Other {
            options_from(args, i + 1)
        } else if takes_value(k) {
            seq![valued_option(args, k, i + 1)] + options_from(args, i + 2)
        } else {
            seq![flag_option(k)] + options_from(args, i + 1)
        }
    }
}

/// The text of each argument.
pub open spec fn arg_texts(args: Seq<String>) -> Seq<Seq<char>> {
    args.map_values(|a: String| a@)
}

fn same_text(a: &str, b: &str) -> (r: bool)
    ensures
        r == (a@ == b@),
{
    let x = str_chars(a);
    let y = str_chars(b);
    if x.len() != y.len() {
        return false;
    }
    let mut i: usize = 0;
    while i < x.len()
        invariant
            x@ == a@,
            y@ == b@,
            x@.len() == y@.len(),
            0 <= i <= x@.len(),
            forall|k: int| 0 <= k < i ==> x@[k] == y@[k],
        decreases x@.len() - i,
    {
        if x[i] != y[i] {
            return false;
        }
        i = i + 1;
    }
    proof {
        assert(x@ =~= y@);
    }
    true
}

fn classify(a: &str) -> (k: ArgKind)
    ensures
        k == arg_kind(a@),
{
    if same_text(a, "--fps") {
        ArgKind::Fps
    } else if same_text(a, "--log-file") {
        ArgKind::LogFile
    } else if same_text(a, "--template") {
        ArgKind::Template
    } else if same_text(a, "--window-title") || same_text(a, "--title") {
        ArgKind::WindowTitle
    } else if same_text(a, "--debug") {
        ArgKind::Debug
    } else if same_text(a, "--no-startup") {
        ArgKind::NoStartup
    } else if same_text(a, "--no-click-focus") {
        ArgKind::NoClickFocus
    } else if same_text(a, "--no-control") {
        ArgKind::NoControl
    } else if same_text(a, "--use-shm") {
        ArgKind::UseShm
    } else if same_text(a, "--full-window") {
        ArgKind::FullWindow
    } else if same_text(a, "--game-rect") {
        ArgKind::GameRect
    } else if same_text(a, "--dry-run-frames") {
        ArgKind::DryRunFrames
    } else if same_text(a, "--list-windows") {
        ArgKind::ListWindows
    } else if same_text(a, "--deadzone") {
        ArgKind::Deadzone
    } else if same_text(a, "--cart-speed") {
        ArgKind::CartSpeed
    } else if same_text(a, "--min-boot-speed") {
        ArgKind::MinBootSpeed
    } else if same_text(a, "--help") || same_text(a, "-h") {
        ArgKind::Help
    } else {
        ArgKind::Other
    }
}

/// Reads a frame count as `u64::from_str` does.
pub fn parse_frame_count(s: &str) -> (r: Option<u64>)
    ensures
        r == parse_u64(s@),
{
    let chars = str_chars(s);
    let n = chars.len();
    let ghost digits = if chars@.len() > 0 && chars@[0] == '+' { chars@.drop_first() } else { chars@ };
    let start: usize = if n > 0 && chars[0] == '+' { 1 } else { 0 };
    proof {
        assert(digits =~= chars@.subrange(start as int, n as int));
    }
    if start == n {
        return None;
    }
    let mut acc: u128 = 0;
    let mut k = start;
    while k < n
        invariant
            start <= k <= n,
            n == chars@.len(),
            digits == chars@.subrange(start as int, n as int),
            digits == if chars@.len() > 0 && chars@[0] == '+' { chars@.drop_first() } else { chars@ },
            chars@ == s@,
            all_digits(digits.take(k - start)),
            acc == digits_value(digits.take(k - start)),
            0 <= acc <= u64::MAX,
        decreases n - k,
    {
        let c = chars[k];
        if !('0' <= c && c <= '9') {
            proof {
                assert(digits[k - start] == c);
                assert(!is_digit(digits[k - start]));
                assert(!all_digits(digits));
            }
            return None;
        }
        let ghost prefix = digits.take(k - start);
        proof {
            assert(digits.take(k + 1 - start).drop_last() =~= prefix);
            assert(digits.take(k + 1 - start).last() == c);
            assert forall|i: int| 0 <= i < k + 1 - start implies #[trigger] is_digit(digits.take(k + 1 - start)[i]) by {
                if i < k - start {
                    assert(digits.take(k + 1 - start)[i] == prefix[i]);
                }
            }
        }
        acc = acc * 10 + (c as u32 - '0' as u32) as u128;
        proof {
            assert(acc == digits_value(digits.take(k + 1 - start)));
        }
        if acc > 18446744073709551615 {
            proof {
                if all_digits(digits) {
                    lemma_digits_value_grows(digits, k + 1 - start);
                }
            }
            return None;
        }
        k = k + 1;
    }
    proof {
        assert(digits.take(n - start) =~= digits);
    }
    Some(acc as u64)
}

/// Reads the command-line arguments (without the program name) into the
/// options they give, in order; see `options_from`.
pub fn parse_args(args: &Vec<String>) -> (opts: Vec<CliOption>)
    ensures
        opts@ == options_from(arg_texts(args@), 0),
{
    let ghost texts = arg_texts(args@);
    let mut opts: Vec<CliOption> = Vec::new();
    let n = args.len();
    let mut i: usize = 0;
    while i < n
        invariant
            n == args@.len(),
            texts == arg_texts(args@),
            texts.len() == n,
            0 <= i <= n,
            opts@ + options_from(texts, i as int) == options_from(texts, 0),
        decreases n + 1 - i,
    {
        let ghost before = opts@;
        let k = classify(args[i].as_str());
        proof {
            assert(texts[i as int] == args@[i as int]@);
        }
        if k == ArgKind::Help {
            opts.push(CliOption::Help);
            proof {
                assert(options_from(texts, i as int) == seq![CliOption::Help]);
                assert(opts@ =~= before + seq![CliOption::Help]);
                assert(opts@ + options_from(texts, n as int) =~= opts@);
            }
            return opts;
        }
        let has_value = i + 1 < n;
        let value: Option<usize> = if has_value { Some(i + 1) } else { None };
        let opt: Option<CliOption> = match k {
            ArgKind::Fps => Some(CliOption::Fps(value)),
            ArgKind::LogFile => Some(CliOption::LogFile(value)),
            ArgKind::Template => Some(CliOption::Template(value)),
            ArgKind::WindowTitle => Some(CliOption::WindowTitle(value)),
            ArgKind::GameRect => Some(
                CliOption::GameRect(
                    if has_value {
                        proof {
                            assert(texts[i + 1] == args@[i + 1]@);
                        }
                        parse_rect_spec(args[i + 1].as_str())
                    } else {
                        None
                    },
                ),
            ),
            ArgKind::DryRunFrames => Some(
                CliOption::DryRunFrames(
                    if has_value {
                        proof {
                            assert(texts[i + 1] == args@[i + 1]@);
                        }
                        parse_frame_count(args[i + 1].as_str())
                    } else {
                        None
                    },
                ),
            ),
            ArgKind::Deadzone => Some(CliOption::Deadzone(value)),
            ArgKind::CartSpeed => Some(CliOption::CartSpeed(value)),
            ArgKind::MinBootSpeed => Some(CliOption::MinBootSpeed(value)),
            ArgKind::Debug => Some(CliOption::Debug),
            ArgKind::NoStartup => Some(CliOption::NoStartup),
            ArgKind::NoClickFocus => Some(CliOption::NoClickFocus),
            ArgKind::NoControl => Some(CliOption::NoControl),
            ArgKind::UseShm => Some(CliOption::UseShm),
            ArgKind::FullWindow => Some(CliOption::FullWindow),
            ArgKind::ListWindows => Some(CliOption::ListWindows),
            _ => None,
        };
        let takes = k == ArgKind::Fps || k == ArgKind::LogFile || k == ArgKind::Template || k
            == ArgKind::WindowTitle || k == ArgKind::GameRect || k == ArgKind::DryRunFrames || k
            == ArgKind::Deadzone || k == ArgKind::CartSpeed || k == ArgKind::MinBootSpeed;
        match opt {
            Some(o) => {
                opts.push(o);
                proof {
                    if takes {
                        assert(o == valued_option(texts, k, i + 1));
                    } else {
                        assert(o == flag_option(k));
                    }
                    assert(opts@ =~= before + seq![o]);
                }
            },
            None => {},
        }
        if takes {
            proof {
                    if has_value {
                    assert(opts@ + options_from(texts, i + 2) =~= before + options_from(texts, i as int));
                } else {
                    assert(options_from(texts, i + 2) == Seq::<CliOption>::empty());
                    assert(options_from(texts, n as int) == Seq::<CliOption>::empty());
                    assert(opts@ + options_from(texts, n as int) =~= before + options_from(texts, i as int));
                }
            }
            i = if has_value { i + 2 } else { n };
        } else {
            proof {
                assert(opts@ + options_from(texts, i + 1) =~= before + options_from(texts, i as int));
            }
            i = i + 1;
        }
    }
    proof {
        assert(options_from(texts, i as int) == Seq::<CliOption>::empty());
        assert(opts@ =~= opts@ + options_from(texts, i as int));
    }
    opts
}

} // verus!
