//! The command line: four positional arguments, then options in any order.
//!
//! ```text
//! mosaicify <target> <row_size> <col_size> <images>
//!           [-c|--color_space rgb|lab|gray] [-o|--output <path>] [-d|--avoid-duplicates]
//! ```
use crate::features::ColorSpace;
use vstd::prelude::*;
use vstd::string::StrSliceExecFns;

verus! {

/// A parsed command line.
#[derive(Clone, Debug)]
pub struct Matches {
    /// Path of the target image.
    pub target: String,
    /// Number of cells across.
    pub row_size: u32,
    /// Number of cells down.
    pub col_size: u32,
    /// Directory of the source images.
    pub images: String,
    pub color_space: ColorSpace,
    /// Path of the image written; `mosaic.jpg` by default.
    pub output: String,
    pub avoid_duplicates: bool,
}

/// Why a command line was not accepted.
#[derive(Clone, Copy, Debug, PartialEq, Eq, Structural)]
pub enum ArgError {
    /// `-h` or `--help` was given.
    Help,
    /// `-V` or `--version` was given.
    Version,
    /// An option that takes a value is last, or followed by another option.
    MissingValue,
    /// An argument starts with `-` and is no known option.
    UnknownOption,
    /// Fewer than four positional arguments.
    MissingArgument,
    /// More than four positional arguments.
    UnexpectedArgument,
    /// A grid size is not a decimal number that fits in 32 bits.
    InvalidNumber,
    /// The colour space is none of `rgb`, `lab` and `gray`.
    InvalidColorSpace,
}

/// What has been read of the command line so far.
pub struct ScanState {
    pub positionals: Seq<Seq<char>>,
    pub color_space: Option<Seq<char>>,
    pub output: Option<Seq<char>>,
    pub avoid_duplicates: bool,
    pub error: Option<ArgError>,
}

pub open spec fn is_option(a: Seq<char>) -> bool {
    a.len() > 1 && a[0] == '-'
}

/// The value of an option at `args[i]`, if the next argument is one.
pub open spec fn has_value(args: Seq<Seq<char>>, i: int) -> bool {
    i + 1 < args.len() && !(args[i + 1].len() > 0 && args[i + 1][0] == '-')
}

/// Reads `args` from index `i` on, left to right.
pub open spec fn scan(args: Seq<Seq<char>>, i: int, st: ScanState) -> ScanState
    decreases args.len() - i,
{
    if i < 0 || i >= args.len() || st.error is Some {
        st
    } else {
        let a = args[i];
        if a == "-h"@ || a == "--help"@ {
            ScanState { error: Some(ArgError::Help), ..st }
        } else if a == "-V"@ || a == "--version"@ {
            ScanState { error: Some(ArgError::Version), ..st }
        } else if a == "-d"@ || a == "--avoid-duplicates"@ {
            scan(args, i + 1, ScanState { avoid_duplicates: true, ..st })
        } else if a == "-c"@ || a == "--color_space"@ {
            if has_value(args, i) {
                scan(args, i + 2, ScanState { color_space: Some(args[i + 1]), ..st })
            } else {
                ScanState { error: Some(ArgError::MissingValue), ..st }
            }
        } else if a == "-o"@ || a == "--output"@ {
            if has_value(args, i) {
                scan(args, i + 2, ScanState { output: Some(args[i + 1]), ..st })
            } else {
                ScanState { error: Some(ArgError::MissingValue), ..st }
            }
        } else if is_option(a) {
            ScanState { error: Some(ArgError::UnknownOption), ..st }
        } else {
            scan(args, i + 1, ScanState { positionals: st.positionals.push(a), ..st })
        }
    }
}

pub open spec fn is_digit(c: char) -> bool {
    '0' <= c <= '9'
}

/// The number that the decimal digits `s` write.
pub open spec fn decimal_value(s: Seq<char>) -> nat
    decreases s.len(),
{
    if s.len() == 0 {
        0
    } else {
        decimal_value(s.drop_last()) * 10 + (s.last() as nat - '0' as nat) as nat
    }
}

/// `s` writes a number in decimal that fits in a `u32`.
pub open spec fn is_u32_decimal(s: Seq<char>) -> bool {
    &&& s.len() > 0
    &&& forall|i: int| 0 <= i < s.len() ==> is_digit(#[trigger] s[i])
    &&& decimal_value(s) <= u32::MAX
}

pub open spec fn color_space_named(s: Seq<char>) -> Option<ColorSpace> {
    if s == "rgb"@ {
        Some(ColorSpace::Rgb)
    } else if s == "lab"@ {
        Some(ColorSpace::Lab)
    } else if s == "gray"@ {
        Some(ColorSpace::Gray)
    } else {
        None
    }
}

pub open spec fn empty_scan() -> ScanState {
    ScanState {
        positionals: Seq::empty(),
        color_space: None,
        output: None,
        avoid_duplicates: false,
        error: None,
    }
}

/// The error that `args` give, if any.
pub open spec fn args_error(args: Seq<Seq<char>>) -> Option<ArgError> {
    let st = scan(args, 0, empty_scan());
    let p = st.positionals;
    if st.error is Some {
        st.error
    } else if p.len() < 4 {
        Some(ArgError::MissingArgument)
    } else if p.len() > 4 {
        Some(ArgError::UnexpectedArgument)
    } else if !is_u32_decimal(p[1]) || !is_u32_decimal(p[2]) {
        Some(ArgError::InvalidNumber)
    } else if st.color_space is Some && color_space_named(st.color_space->Some_0) is None {
        Some(ArgError::InvalidColorSpace)
    } else {
        None
    }
}

/// `m` is what `args` say, where they give no error.
pub open spec fn matches_args(m: Matches, args: Seq<Seq<char>>) -> bool {
    let st = scan(args, 0, empty_scan());
    let p = st.positionals;
    &&& m.target@ == p[0]
    &&& m.row_size == decimal_value(p[1])
    &&& m.col_size == decimal_value(p[2])
    &&& m.images@ == p[3]
    &&& m.color_space == match st.color_space {
        Some(name) => color_space_named(name)->Some_0,
        None => ColorSpace::Lab,
    }
    &&& m.output@ == match st.output {
        Some(path) => path,
        None => "mosaic.jpg"@,
    }
    &&& m.avoid_duplicates == st.avoid_duplicates
}

/// The views of the arguments.
pub open spec fn arg_views(args: Seq<String>) -> Seq<Seq<char>> {
    args.map_values(|a: String| a@)
}

/// `s` is the word `w`.
pub fn is_word(s: &str, w: &str) -> (r: bool)
    ensures
        r == (s@ == w@),
{
    let n = s.unicode_len();
    if n != w.unicode_len() {
        return false;
    }
    let mut i: usize = 0;
    while i < n
        invariant
            n == s@.len(),
            n == w@.len(),
            i <= n,
            forall|j: int| 0 <= j < i ==> s@[j] == w@[j],
        decreases n - i,
    {
        if s.get_char(i) != w.get_char(i) {
            return false;
        }
        i = i + 1;
    }
    assert(s@ =~= w@);
    true
}

/// `s` starts with `-`.
fn starts_with_dash(s: &str) -> (r: bool)
    ensures
        r == (s@.len() > 0 && s@[0] == '-'),
{
    s.unicode_len() > 0 && s.get_char(0) == '-'
}

/// The number that `s` writes in decimal, if it is one that fits in a `u32`.
pub fn parse_u32(s: &str) -> (r: Option<u32>)
    ensures
        r is Some <==> is_u32_decimal(s@),
        r is Some ==> r->Some_0 == decimal_value(s@),
{
    let n = s.unicode_len();
    if n == 0 {
        return None;
    }
    let mut acc: u64 = 0;
    let mut i: usize = 0;
    while i < n
        invariant
            n == s@.len(),
            i <= n,
            forall|j: int| 0 <= j < i ==> is_digit(#[trigger] s@[j]),
            acc == if decimal_value(s@.take(i as int)) <= u32::MAX {
                decimal_value(s@.take(i as int)) as int
            } else {
                u32::MAX + 1
            },
        decreases n - i,
    {
        let c = s.get_char(i);
        if !('0' <= c && c <= '9') {
            return None;
        }
        let d: u64 = (c as u32 - '0' as u32) as u64;
        proof {
            assert(s@.take(i + 1).drop_last() =~= s@.take(i as int));
            assert(s@.take(i + 1).last() == c);
        }
        if acc <= 0xffff_ffff {
            acc = acc * 10 + d;
            if acc > 0xffff_ffff {
                acc = 0x1_0000_0000;
            }
        }
        i = i + 1;
    }
    assert(s@.take(n as int) =~= s@);
    if acc <= 0xffff_ffff {
        Some(acc as u32)
    } else {
        None
    }
}

/// The colour space of that name.
pub fn color_space_from_name(s: &str) -> (r: Option<ColorSpace>)
    ensures
        r == color_space_named(s@),
{
    if is_word(s, "rgb") {
        Some(ColorSpace::Rgb)
    } else if is_word(s, "lab") {
        Some(ColorSpace::Lab)
    } else if is_word(s, "gray") {
        Some(ColorSpace::Gray)
    } else {
        None
    }
}

pub open spec fn scan_model(
    positionals: Seq<String>,
    color_space: Option<String>,
    output: Option<String>,
    avoid_duplicates: bool,
) -> ScanState {
    ScanState {
        positionals: arg_views(positionals),
        color_space: match color_space {
            Some(c) => Some(c@),
            None => None,
        },
        output: match output {
            Some(o) => Some(o@),
            None => None,
        },
        avoid_duplicates,
        error: None,
    }
}

/// Reads the command line `args` (without the program name).
pub fn get_matches(args: &Vec<String>) -> (r: Result<Matches, ArgError>)
    ensures
        r is Err <==> args_error(arg_views(args@)) is Some,
        r is Err ==> r->Err_0 == args_error(arg_views(args@))->Some_0,
        r is Ok ==> matches_args(r->Ok_0, arg_views(args@)),
{
    let ghost v = arg_views(args@);
    let mut positionals: Vec<String> = Vec::new();
    let mut color_space: Option<String> = None;
    let mut output: Option<String> = None;
    let mut avoid_duplicates = false;
    let mut i: usize = 0;
    proof {
        assert(arg_views(positionals@) =~= Seq::<Seq<char>>::empty());
    }
    while i < args.len()
        invariant
            v == arg_views(args@),
            i <= args@.len(),
            scan(v, 0, empty_scan()) == scan(
                v,
                i as int,
                scan_model(positionals@, color_space, output, avoid_duplicates),
            ),
        decreases args@.len() - i,
    {
        let ghost st = scan_model(positionals@, color_space, output, avoid_duplicates);
        let a = args[i].as_str();
        assert(a@ == v[i as int]);
        if is_word(a, "-h") || is_word(a, "--help") {
            return Err(ArgError::Help);
        } else if is_word(a, "-V") || is_word(a, "--version") {
            return Err(ArgError::Version);
        } else if is_word(a, "-d") || is_word(a, "--avoid-duplicates") {
            avoid_duplicates = true;
            i = i + 1;
        } else if is_word(a, "-c") || is_word(a, "--color_space") || is_word(a, "-o") || is_word(
            a,
            "--output",
        ) {
            let takes = i + 1 < args.len() && !starts_with_dash(args[i + 1].as_str());
            if !takes {
                return Err(ArgError::MissingValue);
            }
            assert(args@[i + 1]@ == v[i + 1]);
            if is_word(a, "-c") || is_word(a, "--color_space") {
                color_space = Some(args[i + 1].clone());
            } else {
                output = Some(args[i + 1].clone());
            }
            i = i + 2;
        } else if starts_with_dash(a) && a.unicode_len() > 1 {
            return Err(ArgError::UnknownOption);
        } else {
            positionals.push(args[i].clone());
            proof {
                assert(arg_views(positionals@) =~= st.positionals.push(v[i as int]));
            }
            i = i + 1;
        }
    }
    let ghost st = scan_model(positionals@, color_space, output, avoid_duplicates);
    assert(scan(v, 0, empty_scan()) == st);
    if positionals.len() < 4 {
        return Err(ArgError::MissingArgument);
    }
    if positionals.len() > 4 {
        return Err(ArgError::UnexpectedArgument);
    }
    assert(positionals@[1]@ == st.positionals[1]);
    assert(positionals@[2]@ == st.positionals[2]);
    let row_size = match parse_u32(positionals[1].as_str()) {
        Some(n) => n,
        None => {
            return Err(ArgError::InvalidNumber);
        },
    };
    let col_size = match parse_u32(positionals[2].as_str()) {
        Some(n) => n,
        None => {
            return Err(ArgError::InvalidNumber);
        },
    };
    let cs = match &color_space {
        Some(name) => match color_space_from_name(name.as_str()) {
            Some(c) => c,
            None => {
                return Err(ArgError::InvalidColorSpace);
            },
        },
        None => ColorSpace::Lab,
    };
    let output = match output {
        Some(o) => o,
        None => "mosaic.jpg".to_owned(),
    };
    let images = positionals.pop().unwrap();
    let _col = positionals.pop();
    let _row = positionals.pop();
    let target = positionals.pop().unwrap();
    Ok(
        Matches {
            target,
            row_size,
            col_size,
            images,
            color_space: cs,
            output,
            avoid_duplicates,
        },
    )
}

} // verus!
