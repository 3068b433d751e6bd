//! The offline command that moves identity-bound signing watermarks:
//! `export --out`, `import --in` or `set-floor --min-slot`, each with
//! `--data-dir`, `--validator-pubkey-sha3` and `--genesis-digest`. Reading
//! the command line is here; touching the data directory is the caller's.
use vstd::prelude::*;
use crate::slashprot::Binding;
use crate::text::{chars_of, parse_u64_chars, parse_u64_spec, push_str, string_of, unhex_from, unhex_pairs};
use crate::signing_history::NOT_HEX;
use crate::bytes::read_h32;

verus! {

broadcast use vstd::std_specs::vec::group_vec_axioms;

pub const EXPECTED_ACTION: &'static str = "expected export, import or set-floor";
pub const NEEDS_VALUE: &'static str = "every option requires a value";
pub const BAD_MIN_SLOT: &'static str = "--min-slot must be an unsigned integer";

/// What the command line asks for.
#[derive(Clone, Debug, PartialEq, Eq)]
pub enum SlashingCommand {
    /// Write the watermarks bound to `binding` to a new file at `out`.
    Export { data_dir: String, binding: Binding, out: String },
    /// Merge the watermarks in the file at `input` into the store, upward only.
    Import { data_dir: String, binding: Binding, input: String },
    /// Raise the store's floor to `min_slot`.
    SetFloor { data_dir: String, binding: Binding, min_slot: u64 },
}

pub enum CommandV {
    Export(Seq<char>, (Seq<u8>, Seq<u8>), Seq<char>),
    Import(Seq<char>, (Seq<u8>, Seq<u8>), Seq<char>),
    SetFloor(Seq<char>, (Seq<u8>, Seq<u8>), u64),
}

impl View for SlashingCommand {
    type V = CommandV;

    open spec fn view(&self) -> CommandV {
        match self {
            SlashingCommand::Export { data_dir, binding, out } => CommandV::Export(
                data_dir@,
                (binding.validator_pubkey_sha3@, binding.genesis_digest@),
                out@,
            ),
            SlashingCommand::Import { data_dir, binding, input } => CommandV::Import(
                data_dir@,
                (binding.validator_pubkey_sha3@, binding.genesis_digest@),
                input@,
            ),
            SlashingCommand::SetFloor { data_dir, binding, min_slot } => CommandV::SetFloor(
                data_dir@,
                (binding.validator_pubkey_sha3@, binding.genesis_digest@),
                *min_slot,
            ),
        }
    }
}

/// The arguments as text.
pub open spec fn args_view(args: Seq<String>) -> Seq<Seq<char>> {
    args.map_values(|s: String| s@)
}

/// The option that names the action's own argument.
pub open spec fn extra_option(action: Seq<char>) -> Option<Seq<char>> {
    if action == "export"@ {
        Some("--out"@)
    } else if action == "import"@ {
        Some("--in"@)
    } else if action == "set-floor"@ {
        Some("--min-slot"@)
    } else {
        None
    }
}

pub open spec fn option_allowed(extra: Seq<char>, name: Seq<char>) -> bool {
    name == "--data-dir"@ || name == "--validator-pubkey-sha3"@ || name == "--genesis-digest"@ || name
        == extra
}

/// The first refusal among the option pairs from pair `k` on: a name that
/// is not one of this action's, or one given twice.
pub open spec fn options_error(rest: Seq<Seq<char>>, extra: Seq<char>, k: int) -> Option<Seq<char>>
    decreases rest.len() / 2 - k,
{
    if k < 0 || k >= rest.len() / 2 {
        None
    } else if !option_allowed(extra, rest[2 * k]) {
        Some("unknown option: "@ + rest[2 * k])
    } else if exists|j: int| 0 <= j < k && #[trigger] rest[2 * j] == rest[2 * k] {
        Some("duplicate option: "@ + rest[2 * k])
    } else {
        options_error(rest, extra, k + 1)
    }
}

/// The value of the first pair named `name`, from pair `k` on.
pub open spec fn option_value(rest: Seq<Seq<char>>, name: Seq<char>, k: int) -> Option<Seq<char>>
    decreases rest.len() / 2 - k,
{
    if k < 0 || k >= rest.len() / 2 {
        None
    } else if rest[2 * k] == name {
        Some(rest[2 * k + 1])
    } else {
        option_value(rest, name, k + 1)
    }
}

/// A 32-byte hex option.
pub open spec fn hash_option(rest: Seq<Seq<char>>, name: Seq<char>) -> Result<Seq<u8>, Seq<char>> {
    match option_value(rest, name, 0) {
        None => Err(name + " is required"@),
        Some(v) => match unhex_pairs(v) {
            None => Err(name + ": "@ + NOT_HEX@),
            Some(b) => if b.len() == 32 {
                Ok(b)
            } else {
                Err(name + " must contain exactly 32 bytes"@)
            },
        },
    }
}

/// What the command line says, or why it is refused.
pub open spec fn parse_args_spec(args: Seq<Seq<char>>) -> Result<CommandV, Seq<char>> {
    if args.len() == 0 {
        Err(EXPECTED_ACTION@)
    } else {
        let action = args[0];
        let rest = args.drop_first();
        match extra_option(action) {
            None => Err(EXPECTED_ACTION@),
            Some(extra) => match options_error(rest, extra, 0) {
                Some(m) => Err(m),
                None => if rest.len() % 2 != 0 {
                    Err(NEEDS_VALUE@)
                } else {
                    match option_value(rest, "--data-dir"@, 0) {
                        None => Err("--data-dir"@ + " is required"@),
                        Some(dir) => match hash_option(rest, "--validator-pubkey-sha3"@) {
                            Err(m) => Err(m),
                            Ok(key) => match hash_option(rest, "--genesis-digest"@) {
                                Err(m) => Err(m),
                                Ok(genesis) => match option_value(rest, extra, 0) {
                                    None => Err(extra + " is required"@),
                                    Some(v) => if action == "export"@ {
                                        Ok(CommandV::Export(dir, (key, genesis), v))
                                    } else if action == "import"@ {
                                        Ok(CommandV::Import(dir, (key, genesis), v))
                                    } else {
                                        match parse_u64_spec(v) {
                                            Some(n) => Ok(CommandV::SetFloor(dir, (key, genesis), n)),
                                            None => Err(BAD_MIN_SLOT@),
                                        }
                                    },
                                },
                            },
                        },
                    }
                },
            },
        }
    }
}

fn concat(a: &str, b: &str) -> (r: String)
    ensures
        r@ == a@ + b@,
{
    let mut s = string_of(a);
    push_str(&mut s, b);
    s
}

fn str_is(s: &str, lit: &str) -> (r: bool)
    ensures
        r == (s@ == lit@),
{
    string_of(s) == string_of(lit)
}

/// The refusal among the option pairs, if any.
fn check_options(args: &Vec<String>, extra: &str) -> (r: Option<String>)
    requires
        args@.len() >= 1,
    ensures
        match r {
            Some(m) => options_error(args_view(args@).drop_first(), extra@, 0) == Some(m@),
            None => options_error(args_view(args@).drop_first(), extra@, 0) is None,
        },
{
    let ghost rest = args_view(args@).drop_first();
    let n = args.len();
    let pairs = (n - 1) / 2;
    assert(rest.len() == n - 1);
    assert(forall|i: int| 0 <= i < rest.len() ==> #[trigger] rest[i] == args@[i + 1]@);
    let mut k: usize = 0;
    while k < pairs
        invariant
            n == args@.len(),
            n >= 1,
            pairs == (n - 1) / 2,
            rest == args_view(args@).drop_first(),
            rest.len() == n - 1,
            forall|i: int| 0 <= i < rest.len() ==> #[trigger] rest[i] == args@[i + 1]@,
            k <= pairs,
            options_error(rest, extra@, 0) == options_error(rest, extra@, k as int),
        decreases pairs - k,
    {
        let name = args[1 + 2 * k].as_str();
        assert(name@ == rest[2 * k as int]);
        let allowed = str_is(name, "--data-dir") || str_is(name, "--validator-pubkey-sha3") || str_is(
            name,
            "--genesis-digest",
        ) || str_is(name, extra);
        if !allowed {
            return Some(concat("unknown option: ", name));
        }
        let mut j: usize = 0;
        while j < k
            invariant
                n == args@.len(),
                k < pairs,
                pairs == (n - 1) / 2,
                rest == args_view(args@).drop_first(),
                rest.len() == n - 1,
                option_allowed(extra@, rest[2 * k as int]),
                options_error(rest, extra@, 0) == options_error(rest, extra@, k as int),
                forall|i: int| 0 <= i < rest.len() ==> #[trigger] rest[i] == args@[i + 1]@,
                name@ == rest[2 * k as int],
                j <= k,
                forall|q: int| 0 <= q < j ==> #[trigger] rest[2 * q] != rest[2 * k as int],
            decreases k - j,
        {
            if str_is(args[1 + 2 * j].as_str(), name) {
                assert(rest[2 * j as int] == rest[2 * k as int]);
                return Some(concat("duplicate option: ", name));
            }
            j = j + 1;
        }
        k = k + 1;
    }
    None
}

/// The value of the first pair named `name`.
fn find_option<'a>(args: &'a Vec<String>, name: &str) -> (r: Option<&'a str>)
    requires
        args@.len() >= 1,
    ensures
        match r {
            Some(v) => option_value(args_view(args@).drop_first(), name@, 0) == Some(v@),
            None => option_value(args_view(args@).drop_first(), name@, 0) is None,
        },
{
    let ghost rest = args_view(args@).drop_first();
    let n = args.len();
    let pairs = (n - 1) / 2;
    assert(rest.len() == n - 1);
    assert(forall|i: int| 0 <= i < rest.len() ==> #[trigger] rest[i] == args@[i + 1]@);
    let mut k: usize = 0;
    while k < pairs
        invariant
            n == args@.len(),
            pairs == (n - 1) / 2,
            rest == args_view(args@).drop_first(),
            rest.len() == n - 1,
            forall|i: int| 0 <= i < rest.len() ==> #[trigger] rest[i] == args@[i + 1]@,
            k <= pairs,
            option_value(rest, name@, 0) == option_value(rest, name@, k as int),
        decreases pairs - k,
    {
        assert(args@[1 + 2 * k as int]@ == rest[2 * k as int]);
        assert(args@[2 + 2 * k as int]@ == rest[2 * k + 1]);
        if str_is(args[1 + 2 * k].as_str(), name) {
            return Some(args[2 + 2 * k].as_str());
        }
        k = k + 1;
    }
    None
}

fn hash_of(args: &Vec<String>, name: &str) -> (r: Result<[u8; 32], String>)
    requires
        args@.len() >= 1,
    ensures
        match r {
            Ok(a) => hash_option(args_view(args@).drop_first(), name@) == Ok::<Seq<u8>, Seq<char>>(a@),
            Err(m) => hash_option(args_view(args@).drop_first(), name@) == Err::<Seq<u8>, Seq<char>>(m@),
        },
{
    let v = match find_option(args, name) {
        Some(v) => v,
        None => {
            return Err(concat(name, " is required"));
        },
    };
    let cs = chars_of(v);
    let b = unhex_from(&cs, 0);
    proof {
        assert(cs@.subrange(0, cs@.len() as int) =~= cs@);
    }
    match b {
        None => {
            let mut m = concat(name, ": ");
            push_str(&mut m, NOT_HEX);
            Err(m)
        },
        Some(b) => {
            if b.len() == 32 {
                let a = read_h32(b.as_slice(), 0);
                proof {
                    assert(b@.subrange(0, 32) =~= b@);
                }
                Ok(a)
            } else {
                Err(concat(name, " must contain exactly 32 bytes"))
            }
        },
    }
}

/// Read the command line (without the program and subcommand names): the
/// action and its options, every option given once as a name-value pair.
pub fn parse_args(args: &Vec<String>) -> (r: Result<SlashingCommand, String>)
    ensures
        match r {
            Ok(c) => parse_args_spec(args_view(args@)) == Ok::<CommandV, Seq<char>>(c@),
            Err(m) => parse_args_spec(args_view(args@)) == Err::<CommandV, Seq<char>>(m@),
        },
{
    if args.len() == 0 {
        return Err(string_of(EXPECTED_ACTION));
    }
    let action = args[0].as_str();
    assert(action@ == args_view(args@)[0]);
    let extra: &str = if str_is(action, "export") {
        "--out"
    } else if str_is(action, "import") {
        "--in"
    } else if str_is(action, "set-floor") {
        "--min-slot"
    } else {
        return Err(string_of(EXPECTED_ACTION));
    };
    match check_options(args, extra) {
        Some(m) => {
            return Err(m);
        },
        None => {},
    }
    if (args.len() - 1) % 2 != 0 {
        return Err(string_of(NEEDS_VALUE));
    }
    let dir = match find_option(args, "--data-dir") {
        Some(v) => v,
        None => {
            return Err(concat("--data-dir", " is required"));
        },
    };
    let key = match hash_of(args, "--validator-pubkey-sha3") {
        Ok(a) => a,
        Err(m) => {
            return Err(m);
        },
    };
    let genesis = match hash_of(args, "--genesis-digest") {
        Ok(a) => a,
        Err(m) => {
            return Err(m);
        },
    };
    let v = match find_option(args, extra) {
        Some(v) => v,
        None => {
            return Err(concat(extra, " is required"));
        },
    };
    let binding = Binding { validator_pubkey_sha3: key, genesis_digest: genesis };
    if str_is(action, "export") {
        Ok(SlashingCommand::Export { data_dir: string_of(dir), binding, out: string_of(v) })
    } else if str_is(action, "import") {
        Ok(SlashingCommand::Import { data_dir: string_of(dir), binding, input: string_of(v) })
    } else {
        match parse_u64_chars(&chars_of(v)) {
            Some(n) => Ok(SlashingCommand::SetFloor { data_dir: string_of(dir), binding, min_slot: n }),
            None => Err(string_of(BAD_MIN_SLOT)),
        }
    }
}

} // verus!
