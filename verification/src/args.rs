//! The server's settings, from the command-line options given.

use vstd::prelude::*;
use vstd::string::StringSliceAdditionalSpecFns;
use crate::bytes::{decimal, push_all};
use crate::pages::{IP, PORT, WWW_DIR};

verus! {

/// The value of a decimal numeral: digits only, at least one.
pub open spec fn numeral_value(s: Seq<u8>) -> int
    decreases s.len(),
{
    if s.len() == 0 {
        0
    } else {
        numeral_value(s.drop_last()) * 10 + (s.last() - 48)
    }
}

/// `s` is a non-empty run of decimal digits.
pub open spec fn is_numeral(s: Seq<u8>) -> bool {
    s.len() > 0 && forall|i: int| 0 <= i < s.len() ==> 48 <= #[trigger] s[i] <= 57
}

proof fn lemma_numeral_value_nonneg(s: Seq<u8>)
    requires
        forall|i: int| 0 <= i < s.len() ==> 48 <= #[trigger] s[i] <= 57,
    ensures
        numeral_value(s) >= 0,
    decreases s.len(),
{
    if s.len() > 0 {
        lemma_numeral_value_nonneg(s.drop_last());
    }
}

/// The number a run of digits spells, or `None` when `s` is not a run of digits or its
/// value does not fit a machine word.
pub open spec fn digits_spec(s: Seq<u8>) -> Option<u64> {
    if is_numeral(s) && numeral_value(s) <= u64::MAX {
        Some(numeral_value(s) as u64)
    } else {
        None
    }
}

/// The number `s` spells in decimal, after an optional leading '+' (see `digits_spec`).
pub open spec fn parse_uint_spec(s: Seq<u8>) -> Option<u64> {
    if s.len() > 0 && s[0] == 43 {
        digits_spec(s.drop_first())
    } else {
        digits_spec(s)
    }
}

/// Reads a decimal number with an optional leading '+' (see `parse_uint_spec`).
pub fn parse_uint(s: &[u8]) -> (r: Option<u64>)
    ensures
        r == parse_uint_spec(s@),
{
    if s.len() > 0 && s[0] == 43 {
        let rest = vstd::slice::slice_subrange(s, 1, s.len());
        assert(rest@ =~= s@.drop_first());
        parse_digits(rest)
    } else {
        parse_digits(s)
    }
}

/// Reads a run of decimal digits (see `digits_spec`).
fn parse_digits(s: &[u8]) -> (r: Option<u64>)
    ensures
        r == digits_spec(s@),
{
    if s.len() == 0 {
        return None;
    }
    let mut v: u64 = 0;
    let mut i: usize = 0;
    while i < s.len()
        invariant
            i <= s@.len(),
            forall|j: int| 0 <= j < i ==> 48 <= #[trigger] s@[j] <= 57,
            v == numeral_value(s@.subrange(0, i as int)),
        decreases s@.len() - i,
    {
        let ghost pre = s@.subrange(0, i as int);
        assert(s@.subrange(0, i + 1).drop_last() == pre);
        let c = s[i];
        if c < 48 || c > 57 {
            assert(!is_numeral(s@));
            return None;
        }
        let d = (c - 48) as u64;
        match v.checked_mul(10) {
            None => {
                proof {
                    lemma_numeral_prefix_grows(s@, i as int + 1);
                }
                return None;
            },
            Some(t) => match t.checked_add(d) {
                None => {
                    proof {
                        lemma_numeral_prefix_grows(s@, i as int + 1);
                    }
                    return None;
                },
                Some(w) => {
                    v = w;
                },
            },
        }
        i = i + 1;
    }
    assert(s@.subrange(0, s@.len() as int) == s@);
    Some(v)
}

/// A numeral is worth at least what any of its prefixes is worth.
proof fn lemma_numeral_prefix_grows(s: Seq<u8>, k: int)
    requires
        0 <= k <= s.len(),
        forall|i: int| 0 <= i < k ==> 48 <= #[trigger] s[i] <= 57,
    ensures
        is_numeral(s) ==> numeral_value(s.subrange(0, k)) <= numeral_value(s),
    decreases s.len() - k,
{
    if is_numeral(s) {
        if k < s.len() {
            lemma_numeral_prefix_grows(s, k + 1);
            let p = s.subrange(0, k + 1);
            assert(p.drop_last() == s.subrange(0, k));
            lemma_numeral_value_nonneg(s.subrange(0, k));
        } else {
            assert(s.subrange(0, k) == s);
        }
    }
}

/// The decimal digits of `n` spell `n`.
pub proof fn lemma_decimal_numeral(n: nat)
    ensures
        is_numeral(decimal(n)),
        numeral_value(decimal(n)) == n,
    decreases n,
{
    let d = decimal(n);
    if n < 10 {
        assert(d.drop_last() =~= Seq::<u8>::empty());
        assert(d.last() == (48 + n) as u8);
        assert(((48 + n) as u8) as int == 48 + n);
        assert(numeral_value(d) == numeral_value(d.drop_last()) * 10 + (d.last() - 48));
    } else {
        lemma_decimal_numeral(n / 10);
        vstd::arithmetic::div_mod::lemma_fundamental_div_mod(n as int, 10);
        assert(d.drop_last() == decimal(n / 10));
        assert(d.last() == (48 + n % 10) as u8);
        assert(((48 + n % 10) as u8) as int == 48 + n % 10);
        assert(numeral_value(d) == numeral_value(d.drop_last()) * 10 + (d.last() - 48));
        assert forall|i: int| 0 <= i < d.len() implies 48 <= #[trigger] d[i] <= 57 by {
            if i < d.len() - 1 {
                assert(d[i] == decimal(n / 10)[i]);
            }
        }
    }
}

/// Reading back the decimal digits of a number gives the number.
pub proof fn lemma_parse_decimal(n: u64)
    ensures
        parse_uint_spec(decimal(n as nat)) == Some(n),
{
    lemma_decimal_numeral(n as nat);
    assert(48 <= decimal(n as nat)[0] <= 57);
}

/// The server's settings: its address, port and directory.
pub struct ServerArgs {
    pub ip: Vec<u8>,
    pub port: u64,
    pub www_dir: Vec<u8>,
}

/// Why no settings came out of the command line.
pub enum ArgsError {
    /// Usage help was asked for (`-h` or `--help`).
    Help,
    /// The options could not be read; the text says why.
    BadOption(String),
    /// The port given is not a decimal number that fits a machine word.
    NotUint,
}

/// Why no settings came out, as plain values.
pub enum ArgsFailure {
    Help,
    BadOption(Seq<char>),
    NotUint,
}

/// What the command line gives: the values of `--ip`, `--port` and `--www` (as bytes),
/// and whether `-h` and `--help` were present.
pub struct CommandLine {
    pub ip: Option<Vec<u8>>,
    pub port: Option<Vec<u8>>,
    pub www: Option<Vec<u8>>,
    pub h: bool,
    pub help: bool,
}

/// The options read from a command line, as plain values.
pub type OptionValues = (Option<Seq<u8>>, Option<Seq<u8>>, Option<Seq<u8>>, bool, bool);

/// The bytes of an optional value.
pub open spec fn opt_bytes(o: Option<Vec<u8>>) -> Option<Seq<u8>> {
    match o {
        Some(v) => Some(v@),
        None => None,
    }
}

/// The options a command line gives, as plain values.
pub open spec fn command_line_view(c: CommandLine) -> OptionValues {
    (opt_bytes(c.ip), opt_bytes(c.port), opt_bytes(c.www), c.h, c.help)
}

/// What getopts makes of the arguments `args` (the program's name first): the options, or
/// the text of its failure.
pub uninterp spec fn parsed_options(args: Seq<Seq<char>>) -> Result<OptionValues, Seq<char>>;

/// `getopts::Options::parse` on the arguments after the program's name, with the options
/// `--ip`, `--port` and `--www` taking a value and the flags `-h` and `--help`. On success
/// the result holds each option's value (`Matches::opt_str`, as bytes) and each flag's
/// presence (`Matches::opt_present`); on failure the failure's text. The contract names
/// that outcome (`parsed_options`) and says nothing of how getopts reads the arguments.
#[verifier::external_body]
fn parse_command_line(args: &Vec<String>) -> (r: Result<CommandLine, String>)
    requires
        args@.len() >= 1,
    ensures
        match r {
            Ok(c) => parsed_options(args@.map_values(|a: String| a@)) == Ok::<OptionValues, Seq<char>>(command_line_view(c)),
            Err(e) => parsed_options(args@.map_values(|a: String| a@)) == Err::<OptionValues, Seq<char>>(e@),
        },
{
    let mut o = getopts::Options::new();
    o.optopt("", "ip", "", "").optopt("", "port", "", "").optopt("", "www", "", "");
    o.optflag("h", "", "").optflag("", "help", "");
    match o.parse(&args[1..]) {
        Ok(m) => Ok(CommandLine {
            ip: m.opt_str("ip").map(String::into_bytes),
            port: m.opt_str("port").map(String::into_bytes),
            www: m.opt_str("www").map(String::into_bytes),
            h: m.opt_present("h"),
            help: m.opt_present("help"),
        }),
        Err(f) => Err(f.to_string()),
    }
}

/// The settings the options give: usage help when `-h` or `--help` is present; otherwise
/// each given option's value or else its default (`IP`, `PORT`, `WWW_DIR`), with a given
/// port read as a decimal number, which must be one.
pub open spec fn settings_spec(o: OptionValues) -> Result<(Seq<u8>, u64, Seq<u8>), ArgsFailure> {
    if o.3 || o.4 {
        Err(ArgsFailure::Help)
    } else if o.1 matches Some(p) && parse_uint_spec(p) is None {
        Err(ArgsFailure::NotUint)
    } else {
        Ok(
            (
                match o.0 {
                    Some(v) => v,
                    None => IP.spec_bytes(),
                },
                match o.1 {
                    Some(p) => parse_uint_spec(p).unwrap(),
                    None => PORT as u64,
                },
                match o.2 {
                    Some(v) => v,
                    None => WWW_DIR.spec_bytes(),
                },
            ),
        )
    }
}

/// The settings, or why there are none, as plain values.
pub open spec fn outcome_view(r: Result<ServerArgs, ArgsError>) -> Result<(Seq<u8>, u64, Seq<u8>), ArgsFailure> {
    match r {
        Ok(a) => Ok((a.ip@, a.port, a.www_dir@)),
        Err(ArgsError::Help) => Err(ArgsFailure::Help),
        Err(ArgsError::BadOption(t)) => Err(ArgsFailure::BadOption(t@)),
        Err(ArgsError::NotUint) => Err(ArgsFailure::NotUint),
    }
}

fn default_bytes(s: &str) -> (v: Vec<u8>)
    ensures
        v@ == s.spec_bytes(),
{
    let mut v: Vec<u8> = Vec::new();
    push_all(&mut v, s.as_bytes());
    v
}

/// The settings the options `c` give (see `settings_spec`).
pub fn settings_from(c: CommandLine) -> (r: Result<ServerArgs, ArgsError>)
    ensures
        outcome_view(r) == settings_spec(command_line_view(c)),
{
    let ghost cv = command_line_view(c);
    if c.h || c.help {
        return Err(ArgsError::Help);
    }
    let port = match &c.port {
        Some(p) => match parse_uint(p.as_slice()) {
            Some(n) => n,
            None => {
                return Err(ArgsError::NotUint);
            },
        },
        None => PORT as u64,
    };
    let ip = match c.ip {
        Some(v) => v,
        None => default_bytes(IP),
    };
    let www_dir = match c.www {
        Some(v) => v,
        None => default_bytes(WWW_DIR),
    };
    Ok(ServerArgs { ip, port, www_dir })
}

/// The server's settings from the command line `args` (the program's name first): the
/// failure's text when getopts cannot read the options, and otherwise the settings the
/// options give (see `settings_spec`).
pub fn get_args(args: &Vec<String>) -> (r: Result<ServerArgs, ArgsError>)
    requires
        args@.len() >= 1,
    ensures
        outcome_view(r) == match parsed_options(args@.map_values(|a: String| a@)) {
            Err(t) => Err(ArgsFailure::BadOption(t)),
            Ok(o) => settings_spec(o),
        },
{
    match parse_command_line(args) {
        Err(t) => Err(ArgsError::BadOption(t)),
        Ok(c) => settings_from(c),
    }
}

} // verus!
