//! The command line: how it is read, and how answers are shown.

use vstd::prelude::*;
use crate::cbor::{map_value, text_views, texts_value, Cbor, CborV};
use crate::obs::metrics::{i64_text, signed_text};
use crate::text::{
    cat2, cat3, chars_between, chars_of, dec_text, find_chars, find_from, join_texts, joined,
    lemma_find, occurs_at, parse_u64, str_eq, string_of, u64_of, u64_text,
};

verus! {

/// How a node is to be run.
#[derive(Debug)]
pub struct RunArgs {
    pub config: Option<String>,
    pub overrides: Vec<(String, String)>,
    pub dry_run: bool,
}

/// How a node is to be run, as a mathematical object.
#[verifier::ext_equal]
pub struct RunArgsV {
    pub config: Option<Seq<char>>,
    pub overrides: Seq<(Seq<char>, Seq<char>)>,
    pub dry_run: bool,
}

impl DeepView for RunArgs {
    type V = RunArgsV;

    open spec fn deep_view(&self) -> RunArgsV {
        RunArgsV {
            config: self.config.deep_view(),
            overrides: self.overrides.deep_view(),
            dry_run: self.dry_run,
        }
    }
}

/// A pair with an equals sign between key and value.
pub open spec fn pair_of(s: Seq<char>) -> Option<(Seq<char>, Seq<char>)> {
    match find_from(s, "="@, 0) {
        Some(i) => Some((s.take(i), s.skip(i + 1))),
        None => None,
    }
}

fn split_pair(s: &str) -> (r: Option<(String, String)>)
    ensures
        r.deep_view() == pair_of(s@),
{
    let chars = chars_of(s);
    let mark = chars_of("=");
    proof {
        reveal_strlit("=");
        assert("="@.len() == 1);
    }
    match find_chars(chars.as_slice(), mark.as_slice(), 0) {
        Some(i) => {
            let n: usize = chars.len();
            let k = string_of(chars_between(chars.as_slice(), 0, i).as_slice());
            let v = string_of(chars_between(chars.as_slice(), i + 1, n).as_slice());
            assert(k@ =~= s@.take(i as int));
            assert(v@ =~= s@.skip(i + 1));
            Some((k, v))
        },
        None => None,
    }
}

/// The arguments from `i` on, over what was read so far.
pub open spec fn run_from(args: Seq<Seq<char>>, i: int, st: RunArgsV) -> Result<RunArgsV, Seq<char>>
    decreases args.len() - i,
{
    if i < 0 || i >= args.len() {
        Ok(st)
    } else if args[i] == "--config"@ {
        if i + 1 >= args.len() {
            Err("--config requires a path"@)
        } else {
            run_from(args, i + 2, RunArgsV { config: Some(args[i + 1]), ..st })
        }
    } else if args[i] == "--set"@ {
        if i + 1 >= args.len() {
            Err("--set requires key=value"@)
        } else {
            match pair_of(args[i + 1]) {
                None => Err("bad --set `"@ + args[i + 1] + "` (want key=value)"@),
                Some(p) => run_from(
                    args,
                    i + 2,
                    RunArgsV { overrides: st.overrides.push(p), ..st },
                ),
            }
        }
    } else if args[i] == "--dry-run"@ {
        run_from(args, i + 1, RunArgsV { dry_run: true, ..st })
    } else {
        Err("unknown flag `"@ + args[i] + "`"@)
    }
}

/// What the arguments of `run` say.
pub open spec fn run_of(args: Seq<Seq<char>>) -> Result<RunArgsV, Seq<char>> {
    run_from(args, 0, RunArgsV { config: None, overrides: Seq::empty(), dry_run: false })
}

proof fn lemma_run_further(args: Seq<Seq<char>>, more: Seq<Seq<char>>, i: int, st: RunArgsV)
    requires
        0 <= i <= args.len(),
        run_from(args, i, st) is Ok,
    ensures
        run_from(args + more, i, st) == run_from(
            args + more,
            args.len() as int,
            run_from(args, i, st)->Ok_0,
        ),
    decreases args.len() - i,
{
    let all = args + more;
    if i < args.len() {
        assert(all[i] == args[i]);
        if args[i] == "--config"@ {
            assert(all[i + 1] == args[i + 1]);
            lemma_run_further(args, more, i + 2, RunArgsV { config: Some(args[i + 1]), ..st });
        } else if args[i] == "--set"@ {
            assert(all[i + 1] == args[i + 1]);
            let p = pair_of(args[i + 1])->0;
            lemma_run_further(
                args,
                more,
                i + 2,
                RunArgsV { overrides: st.overrides.push(p), ..st },
            );
        } else {
            lemma_run_further(args, more, i + 1, RunArgsV { dry_run: true, ..st });
        }
    }
}

/// Each flag behind others adds what it says to what those said: the last path of a
/// configuration counts, a setting comes behind the earlier ones, split at its first
/// equals sign, and a dry run stays one. Any other word is refused.
pub proof fn lemma_run_flag(
    args: Seq<Seq<char>>,
    path: Seq<char>,
    key: Seq<char>,
    value: Seq<char>,
    word: Seq<char>,
)
    requires
        run_of(args) is Ok,
        forall|i: int| 0 <= i < key.len() ==> #[trigger] key[i] != '=',
        word != "--config"@,
        word != "--set"@,
        word != "--dry-run"@,
    ensures
        ({
            let st = run_of(args)->Ok_0;
            &&& run_of(args + seq!["--config"@, path]) == Ok::<RunArgsV, Seq<char>>(
                RunArgsV { config: Some(path), overrides: st.overrides, dry_run: st.dry_run },
            )
            &&& run_of(args + seq!["--set"@, key + seq!['='] + value]) == Ok::<
                RunArgsV,
                Seq<char>,
            >(
                RunArgsV {
                    config: st.config,
                    overrides: st.overrides.push((key, value)),
                    dry_run: st.dry_run,
                },
            )
            &&& run_of(args + seq!["--dry-run"@]) == Ok::<RunArgsV, Seq<char>>(
                RunArgsV { config: st.config, overrides: st.overrides, dry_run: true },
            )
            &&& run_of(args + seq![word]) is Err
            &&& run_of(args + seq!["--config"@]) is Err
            &&& run_of(args + seq!["--set"@]) is Err
            &&& run_of(args + seq!["--set"@, key]) is Err
        }),
{
    reveal_strlit("--config");
    reveal_strlit("--set");
    reveal_strlit("--dry-run");
    reveal_strlit("=");
    assert("--config"@.len() == 8 && "--set"@.len() == 5 && "--dry-run"@.len() == 9);
    let n = args.len() as int;
    let st = run_of(args)->Ok_0;
    let none = RunArgsV { config: None, overrides: Seq::empty(), dry_run: false };
    let pair = key + seq!['='] + value;
    let a = args + seq!["--config"@, path];
    let b = args + seq!["--set"@, pair];
    let c = args + seq!["--dry-run"@];
    let e = args + seq!["--set"@, key];
    lemma_run_further(args, seq!["--config"@, path], 0, none);
    lemma_run_further(args, seq!["--set"@, pair], 0, none);
    lemma_run_further(args, seq!["--dry-run"@], 0, none);
    lemma_run_further(args, seq![word], 0, none);
    lemma_run_further(args, seq!["--config"@], 0, none);
    lemma_run_further(args, seq!["--set"@], 0, none);
    lemma_run_further(args, seq!["--set"@, key], 0, none);
    assert(a[n] == "--config"@ && a[n + 1] == path);
    assert(run_from(a, n + 2, RunArgsV { config: Some(path), ..st }) is Ok);
    lemma_find(pair, "="@, 0);
    let k = key.len() as int;
    assert(pair.subrange(k, k + 1) =~= "="@);
    assert(occurs_at(pair, "="@, k));
    let f = find_from(pair, "="@, 0);
    assert(f is Some);
    assert(pair.subrange(f->0, f->0 + 1)[0] == pair[f->0]);
    if f->0 < k {
        assert(pair[f->0] == key[f->0]);
    }
    assert(pair.take(k) =~= key);
    assert(pair.skip(k + 1) =~= value);
    assert(pair_of(pair) == Some((key, value)));
    assert(b[n] == "--set"@ && b[n + 1] == pair);
    assert(run_from(b, n + 2, RunArgsV { overrides: st.overrides.push((key, value)), ..st }) is Ok);
    assert(c[n] == "--dry-run"@);
    assert(run_from(c, n + 1, RunArgsV { dry_run: true, ..st }) is Ok);
    lemma_find(key, "="@, 0);
    if let Some(g) = find_from(key, "="@, 0) {
        assert(key.subrange(g, g + 1)[0] == key[g]);
    }
    assert(e[n] == "--set"@ && e[n + 1] == key);
    assert((args + seq![word])[n] == word);
    assert((args + seq!["--config"@])[n] == "--config"@);
    assert((args + seq!["--set"@])[n] == "--set"@);
}

/// Reads the arguments of `run`.
pub fn parse_run(args: &Vec<String>) -> (r: Result<RunArgs, String>)
    ensures
        match (r, run_of(text_views(args@))) {
            (Ok(a), Ok(b)) => a.deep_view() == b,
            (Err(e), Err(w)) => e@ == w,
            _ => false,
        },
{
    let ghost all = text_views(args@);
    let mut st = RunArgs { config: None, overrides: Vec::new(), dry_run: false };
    assert(st.overrides.deep_view() =~= Seq::empty());
    let mut i: usize = 0;
    let n: usize = args.len();
    while i < n
        invariant
            i <= n == args@.len(),
            all == text_views(args@),
            run_of(all) == run_from(all, i as int, st.deep_view()),
        decreases n - i,
    {
        let a = args[i].as_str();
        assert(all[i as int] == a@);
        if str_eq(a, "--config") {
            if n - i < 2 {
                return Err("--config requires a path".to_string());
            }
            assert(all[i + 1] == args@[i + 1]@);
            st.config = Some(args[i + 1].as_str().to_string());
            i += 2;
        } else if str_eq(a, "--set") {
            if n - i < 2 {
                return Err("--set requires key=value".to_string());
            }
            assert(all[i + 1] == args@[i + 1]@);
            match split_pair(args[i + 1].as_str()) {
                None => {
                    return Err(
                        cat3("bad --set `", args[i + 1].as_str(), "` (want key=value)"),
                    );
                },
                Some(p) => {
                    let ghost before = st.overrides.deep_view();
                    let ghost v = (p.0@, p.1@);
                    st.overrides.push(p);
                    assert(st.overrides.deep_view() =~= before.push(v));
                    i += 2;
                },
            }
        } else if str_eq(a, "--dry-run") {
            st.dry_run = true;
            i += 1;
        } else {
            return Err(cat3("unknown flag `", a, "`"));
        }
    }
    Ok(st)
}

/// A command for a running node: its verb and its arguments.
#[derive(Debug)]
pub struct Command {
    pub verb: String,
    pub args: Cbor,
}

/// A command as a mathematical object.
#[verifier::ext_equal]
pub struct CommandV {
    pub verb: Seq<char>,
    pub args: CborV,
}

impl DeepView for Command {
    type V = CommandV;

    open spec fn deep_view(&self) -> CommandV {
        CommandV { verb: self.verb@, args: self.args@ }
    }
}

/// The words are exactly these two.
pub open spec fn two(a: Seq<Seq<char>>, x: Seq<char>, y: Seq<char>) -> bool {
    a.len() == 2 && a[0] == x && a[1] == y
}

/// The words are these two and one more.
pub open spec fn three(a: Seq<Seq<char>>, x: Seq<char>, y: Seq<char>) -> bool {
    a.len() == 3 && a[0] == x && a[1] == y
}

/// A command that needs nothing but its verb.
pub open spec fn bare(verb: Seq<char>) -> Result<CommandV, Seq<char>> {
    Ok(CommandV { verb, args: CborV::Null })
}

/// A command with arguments.
pub open spec fn with_args(verb: Seq<char>, pairs: Seq<(Seq<char>, CborV)>) -> Result<
    CommandV,
    Seq<char>,
> {
    Ok(CommandV { verb, args: map_value(pairs) })
}

/// What the words of a command say.
pub open spec fn command_of(a: Seq<Seq<char>>) -> Result<CommandV, Seq<char>> {
    if a.len() == 1 && a[0] == "status"@ {
        bare("status"@)
    } else if a.len() == 1 && a[0] == "snapshot"@ {
        bare("snapshot"@)
    } else if a.len() == 1 && a[0] == "metrics"@ {
        bare("metrics"@)
    } else if a.len() == 1 && a[0] == "shutdown"@ {
        bare("shutdown"@)
    } else if two(a, "gap"@, "list"@) {
        bare("gap list"@)
    } else if two(a, "budget"@, "defaults"@) {
        bare("budget defaults"@)
    } else if two(a, "quarantine"@, "list"@) {
        bare("quarantine list"@)
    } else if three(a, "quarantine"@, "reinject"@) {
        with_args("quarantine reinject"@, seq![("qid"@, CborV::Text(a[2]))])
    } else if three(a, "quarantine"@, "reject"@) {
        with_args("quarantine reject"@, seq![("qid"@, CborV::Text(a[2]))])
    } else if two(a, "audit"@, "verify"@) {
        bare("audit verify"@)
    } else if two(a, "kms"@, "status"@) {
        bare("kms status"@)
    } else if two(a, "kms"@, "rotate"@) {
        with_args("kms rotate"@, seq![("emergency"@, CborV::Bool(false))])
    } else if three(a, "kms"@, "rotate"@) && a[2] == "--emergency"@ {
        with_args("kms rotate"@, seq![("emergency"@, CborV::Bool(true))])
    } else if two(a, "congruence"@, "audit"@) {
        bare("congruence audit"@)
    } else if a.len() >= 3 && a[0] == "congruence"@ && a[1] == "accept"@ {
        with_args("congruence accept"@, seq![("entities"@, texts_value(a.skip(2)))])
    } else if two(a, "contract"@, "list"@) {
        bare("contract list"@)
    } else if three(a, "contract"@, "verify-migration"@) {
        with_args("contract verify-migration"@, seq![("schema_id"@, CborV::Text(a[2]))])
    } else if three(a, "contract"@, "apply-migration"@) {
        with_args("contract apply-migration"@, seq![("schema_id"@, CborV::Text(a[2]))])
    } else if a.len() == 7 && a[0] == "contract"@ && a[1] == "plan-migration"@ {
        with_args(
            "contract plan-migration"@,
            seq![
                ("schema_id"@, CborV::Text(a[2])),
                ("target_schema_id"@, CborV::Text(a[3])),
                ("decision_handle"@, CborV::Text(a[4])),
                ("migration_plan_handle"@, CborV::Text(a[5])),
                ("deprecated_after"@, CborV::Text(a[6])),
            ],
        )
    } else if two(a, "curator"@, "status"@) {
        bare("curator status"@)
    } else if two(a, "curator"@, "probe-now"@) {
        bare("curator probe-now"@)
    } else if two(a, "curator"@, "verify-weights"@) {
        bare("curator verify-weights"@)
    } else if two(a, "cross-check"@, "tail"@) {
        with_args("cross-check tail"@, seq![("n"@, CborV::U64(20))])
    } else if three(a, "cross-check"@, "tail"@) {
        match u64_of(a[2]) {
            Some(n) => with_args("cross-check tail"@, seq![("n"@, CborV::U64(n))]),
            None => Err("n must be a number"@),
        }
    } else if two(a, "adjudicator"@, "stats"@) {
        bare("adjudicator stats"@)
    } else if a.len() == 3 && a[0] == "resolve"@ {
        if a[2] == "--uphold-auditor"@ || a[2] == "--uphold-initiator"@ {
            with_args(
                "resolve"@,
                seq![
                    ("handle"@, CborV::Text(a[1])),
                    ("uphold_auditor"@, CborV::Bool(a[2] == "--uphold-auditor"@)),
                ],
            )
        } else {
            Err("unknown resolve flag `"@ + a[2] + "`"@)
        }
    } else {
        Err("unknown or malformed command `"@ + joined(a, " "@) + "`"@)
    }
}

fn is_two(a: &Vec<String>, x: &str, y: &str) -> (r: bool)
    ensures
        r == two(text_views(a@), x@, y@),
{
    a.len() == 2 && str_eq(a[0].as_str(), x) && str_eq(a[1].as_str(), y)
}

fn is_three(a: &Vec<String>, x: &str, y: &str) -> (r: bool)
    ensures
        r == three(text_views(a@), x@, y@),
{
    a.len() == 3 && str_eq(a[0].as_str(), x) && str_eq(a[1].as_str(), y)
}

/// A command as it was read.
pub open spec fn reads(r: Result<Command, String>, want: Result<CommandV, Seq<char>>) -> bool {
    match (r, want) {
        (Ok(a), Ok(b)) => a.deep_view() == b,
        (Err(e), Err(w)) => e@ == w,
        _ => false,
    }
}

fn plain(verb: &str) -> (r: Result<Command, String>)
    ensures
        reads(r, bare(verb@)),
{
    Ok(Command { verb: verb.to_string(), args: Cbor::Null })
}

fn accept_command(a: &Vec<String>) -> (r: Result<Command, String>)
    requires
        a@.len() >= 3,
    ensures
        reads(
            r,
            with_args(
                "congruence accept"@,
                seq![("entities"@, texts_value(text_views(a@).skip(2)))],
            ),
        ),
{
    let ghost want = text_views(a@).skip(2);
    let mut list: Vec<String> = Vec::new();
    let mut i: usize = 2;
    assert(text_views(list@) =~= want.take(0));
    while i < a.len()
        invariant
            2 <= i <= a@.len(),
            want == text_views(a@).skip(2),
            text_views(list@) == want.take(i - 2),
        decreases a.len() - i,
    {
        let ghost before = text_views(list@);
        let e = a[i].as_str().to_string();
        list.push(e);
        assert(text_views(list@) =~= before.push(e@));
        assert(want[i - 2] == e@);
        i += 1;
        assert(want.take(i - 2) =~= want.take(i - 3).push(want[i - 3]));
    }
    assert(want.take(want.len() as int) =~= want);
    Ok(
        Command {
            verb: "congruence accept".to_string(),
            args: Cbor::map1("entities", Cbor::text_array(list.as_slice())),
        },
    )
}

fn plan_command(a: &Vec<String>) -> (r: Result<Command, String>)
    requires
        a@.len() == 7,
    ensures
        reads(
            r,
            with_args(
                "contract plan-migration"@,
                seq![
                    ("schema_id"@, CborV::Text(a@[2]@)),
                    ("target_schema_id"@, CborV::Text(a@[3]@)),
                    ("decision_handle"@, CborV::Text(a@[4]@)),
                    ("migration_plan_handle"@, CborV::Text(a@[5]@)),
                    ("deprecated_after"@, CborV::Text(a@[6]@)),
                ],
            ),
        ),
{
    let pairs = vec![
        ("schema_id", Cbor::t(a[2].as_str())),
        ("target_schema_id", Cbor::t(a[3].as_str())),
        ("decision_handle", Cbor::t(a[4].as_str())),
        ("migration_plan_handle", Cbor::t(a[5].as_str())),
        ("deprecated_after", Cbor::t(a[6].as_str())),
    ];
    let ghost got = Seq::new(pairs@.len(), |i: int| (pairs@[i].0@, pairs@[i].1@));
    let args = Cbor::map(pairs);
    assert(got =~= seq![
        ("schema_id"@, CborV::Text(a@[2]@)),
        ("target_schema_id"@, CborV::Text(a@[3]@)),
        ("decision_handle"@, CborV::Text(a@[4]@)),
        ("migration_plan_handle"@, CborV::Text(a@[5]@)),
        ("deprecated_after"@, CborV::Text(a@[6]@)),
    ]);
    Ok(Command { verb: "contract plan-migration".to_string(), args })
}

fn resolve_command(a: &Vec<String>) -> (r: Result<Command, String>)
    requires
        a@.len() == 3,
    ensures
        reads(
            r,
            if a@[2]@ == "--uphold-auditor"@ || a@[2]@ == "--uphold-initiator"@ {
                with_args(
                    "resolve"@,
                    seq![
                        ("handle"@, CborV::Text(a@[1]@)),
                        ("uphold_auditor"@, CborV::Bool(a@[2]@ == "--uphold-auditor"@)),
                    ],
                )
            } else {
                Err("unknown resolve flag `"@ + a@[2]@ + "`"@)
            },
        ),
{
    let auditor: bool = str_eq(a[2].as_str(), "--uphold-auditor");
    if !auditor && !str_eq(a[2].as_str(), "--uphold-initiator") {
        return Err(cat3("unknown resolve flag `", a[2].as_str(), "`"));
    }
    Ok(
        Command {
            verb: "resolve".to_string(),
            args: Cbor::map2(
                "handle",
                Cbor::t(a[1].as_str()),
                "uphold_auditor",
                Cbor::Bool(auditor),
            ),
        },
    )
}

/// Reads a command for a running node.
#[verifier::rlimit(40)]
pub fn parse_command(a: &Vec<String>) -> (r: Result<Command, String>)
    ensures
        reads(r, command_of(text_views(a@))),
{
    let ghost all = text_views(a@);
    assert(all.len() == a@.len());
    assert forall|i: int| 0 <= i < all.len() implies #[trigger] all[i] == a@[i]@ by {}
    if a.len() == 1 && str_eq(a[0].as_str(), "status") {
        plain("status")
    } else if a.len() == 1 && str_eq(a[0].as_str(), "snapshot") {
        plain("snapshot")
    } else if a.len() == 1 && str_eq(a[0].as_str(), "metrics") {
        plain("metrics")
    } else if a.len() == 1 && str_eq(a[0].as_str(), "shutdown") {
        plain("shutdown")
    } else if is_two(a, "gap", "list") {
        plain("gap list")
    } else if is_two(a, "budget", "defaults") {
        plain("budget defaults")
    } else if is_two(a, "quarantine", "list") {
        plain("quarantine list")
    } else if is_three(a, "quarantine", "reinject") {
        Ok(
            Command {
                verb: "quarantine reinject".to_string(),
                args: Cbor::map1("qid", Cbor::t(a[2].as_str())),
            },
        )
    } else if is_three(a, "quarantine", "reject") {
        Ok(
            Command {
                verb: "quarantine reject".to_string(),
                args: Cbor::map1("qid", Cbor::t(a[2].as_str())),
            },
        )
    } else if is_two(a, "audit", "verify") {
        plain("audit verify")
    } else if is_two(a, "kms", "status") {
        plain("kms status")
    } else if is_two(a, "kms", "rotate") {
        Ok(
            Command {
                verb: "kms rotate".to_string(),
                args: Cbor::map1("emergency", Cbor::Bool(false)),
            },
        )
    } else if is_three(a, "kms", "rotate") && str_eq(a[2].as_str(), "--emergency") {
        Ok(
            Command {
                verb: "kms rotate".to_string(),
                args: Cbor::map1("emergency", Cbor::Bool(true)),
            },
        )
    } else if is_two(a, "congruence", "audit") {
        plain("congruence audit")
    } else if a.len() >= 3 && str_eq(a[0].as_str(), "congruence") && str_eq(a[1].as_str(), "accept") {
        accept_command(a)
    } else if is_two(a, "contract", "list") {
        plain("contract list")
    } else if is_three(a, "contract", "verify-migration") {
        Ok(
            Command {
                verb: "contract verify-migration".to_string(),
                args: Cbor::map1("schema_id", Cbor::t(a[2].as_str())),
            },
        )
    } else if is_three(a, "contract", "apply-migration") {
        Ok(
            Command {
                verb: "contract apply-migration".to_string(),
                args: Cbor::map1("schema_id", Cbor::t(a[2].as_str())),
            },
        )
    } else if a.len() == 7 && str_eq(a[0].as_str(), "contract") && str_eq(
        a[1].as_str(),
        "plan-migration",
    ) {
        plan_command(a)
    } else if is_two(a, "curator", "status") {
        plain("curator status")
    } else if is_two(a, "curator", "probe-now") {
        plain("curator probe-now")
    } else if is_two(a, "curator", "verify-weights") {
        plain("curator verify-weights")
    } else if is_two(a, "cross-check", "tail") {
        Ok(
            Command {
                verb: "cross-check tail".to_string(),
                args: Cbor::map1("n", Cbor::U64(20)),
            },
        )
    } else if is_three(a, "cross-check", "tail") {
        match parse_u64(a[2].as_str()) {
            Some(n) => Ok(
                Command {
                    verb: "cross-check tail".to_string(),
                    args: Cbor::map1("n", Cbor::U64(n)),
                },
            ),
            None => Err("n must be a number".to_string()),
        }
    } else if is_two(a, "adjudicator", "stats") {
        plain("adjudicator stats")
    } else if a.len() == 3 && str_eq(a[0].as_str(), "resolve") {
        resolve_command(a)
    } else {
        let words = join_texts(a.as_slice(), " ");
        assert(all =~= Seq::new(a@.len(), |i: int| a@[i]@));
        Err(cat3("unknown or malformed command `", words.as_str(), "`"))
    }
}

/// A text as `str` shows it for debugging: in quotes, with what cannot be printed
/// escaped.
pub uninterp spec fn quoted_of(s: Seq<char>) -> Seq<char>;

/// Wraps the `Debug` form of `str` that `format` gives: it depends on the text alone.
#[verifier::external_body]
fn quoted(s: &str) -> (r: String)
    ensures
        r@ == quoted_of(s@),
{
    format!("{:?}", s)
}

/// A value that can be spelled out: it holds no floats.
pub open spec fn spellable(v: CborV) -> bool
    decreases v,
{
    match v {
        CborV::F64(_) => false,
        CborV::Array(a) => forall|i: int| 0 <= i < a.len() ==> spellable(#[trigger] a[i]),
        CborV::Pairs(m) => forall|i: int|
            0 <= i < m.len() ==> spellable((#[trigger] m[i]).0) && spellable(m[i].1),
        _ => true,
    }
}

/// Bytes as numbers.
pub open spec fn byte_words(b: Seq<u8>) -> Seq<Seq<char>> {
    Seq::new(b.len(), |i: int| dec_text(b[i] as nat))
}

/// A value spelled out with its kind, as keys that are no texts are.
pub open spec fn spelled(v: CborV) -> Seq<char>
    decreases v,
{
    match v {
        CborV::Null => "Null"@,
        CborV::Bool(b) => if b {
            "Bool(true)"@
        } else {
            "Bool(false)"@
        },
        CborV::U64(n) => "U64("@ + dec_text(n as nat) + ")"@,
        CborV::I64(n) => "I64("@ + signed_text(n as int) + ")"@,
        CborV::F64(_) => Seq::empty(),
        CborV::Bytes(b) => "Bytes(["@ + joined(byte_words(b), ", "@) + "])"@,
        CborV::Text(s) => "Text("@ + quoted_of(s) + ")"@,
        CborV::Array(a) => "Array(["@ + joined(spelled_items(a), ", "@) + "])"@,
        CborV::Pairs(m) => "Map(["@ + joined(spelled_pairs(m), ", "@) + "])"@,
    }
}

/// The items of a list, spelled out.
pub open spec fn spelled_items(a: Seq<CborV>) -> Seq<Seq<char>>
    decreases a,
{
    if a.len() == 0 {
        Seq::empty()
    } else {
        spelled_items(a.drop_last()).push(spelled(a.last()))
    }
}

/// The pairs of a map, spelled out.
pub open spec fn spelled_pairs(m: Seq<(CborV, CborV)>) -> Seq<Seq<char>>
    decreases m,
{
    if m.len() == 0 {
        Seq::empty()
    } else {
        let (k, v) = m.last();
        spelled_pairs(m.drop_last()).push("("@ + spelled(k) + ", "@ + spelled(v) + ")"@)
    }
}

/// How a key is shown: a text by itself, anything else spelled out.
pub open spec fn key_text(k: CborV) -> Seq<char> {
    match k {
        CborV::Text(s) => s,
        _ => spelled(k),
    }
}

/// Spells a value out.
fn spell(c: &Cbor) -> (r: String)
    requires
        spellable(c@),
    ensures
        r@ == spelled(c@),
    decreases c,
{
    match c {
        Cbor::Null => "Null".to_string(),
        Cbor::Bool(b) => {
            if *b {
                "Bool(true)".to_string()
            } else {
                "Bool(false)".to_string()
            }
        },
        Cbor::U64(n) => cat3("U64(", u64_text(*n).as_str(), ")"),
        Cbor::I64(n) => cat3("I64(", i64_text(*n).as_str(), ")"),
        Cbor::F64(_) => String::new(),
        Cbor::Bytes(b) => {
            let ghost want = byte_words(b@);
            let mut words: Vec<String> = Vec::new();
            let mut i: usize = 0;
            assert(text_views(words@) =~= want.take(0));
            while i < b.len()
                invariant
                    i <= b@.len(),
                    want == byte_words(b@),
                    text_views(words@) == want.take(i as int),
                decreases b.len() - i,
            {
                let ghost before = text_views(words@);
                let word = u64_text(b[i] as u64);
                words.push(word);
                assert(text_views(words@) =~= before.push(word@));
                i += 1;
                assert(want.take(i as int) =~= want.take(i - 1).push(want[i - 1]));
            }
            assert(want.take(i as int) =~= want);
            assert(text_views(words@) =~= Seq::new(words@.len(), |i: int| words@[i]@));
            cat3("Bytes([", join_texts(words.as_slice(), ", ").as_str(), "])")
        },
        Cbor::Text(s) => cat3("Text(", quoted(s.as_str()).as_str(), ")"),
        Cbor::Array(a) => {
            let ghost av = c@->Array_0;
            let mut words: Vec<String> = Vec::new();
            let mut i: usize = 0;
            assert(av.take(0) =~= Seq::empty());
            assert(text_views(words@) =~= Seq::empty());
            while i < a.len()
                invariant
                    i <= a@.len(),
                    *c is Array && *a == c->Array_0,
                    av == c@->Array_0,
                    av.len() == a@.len(),
                    spellable(c@),
                    text_views(words@) == spelled_items(av.take(i as int)),
                decreases a.len() - i,
            {
                assert(decreases_to!(*a => a@[i as int]));
                assert(av[i as int] == a@[i as int]@);
                assert(spellable(av[i as int]));
                assert(av.take(i + 1).drop_last() =~= av.take(i as int));
                let ghost before = text_views(words@);
                let word = spell(&a[i]);
                words.push(word);
                assert(text_views(words@) =~= before.push(word@));
                i += 1;
            }
            assert(av.take(i as int) =~= av);
            assert(text_views(words@) =~= Seq::new(words@.len(), |i: int| words@[i]@));
            cat3("Array([", join_texts(words.as_slice(), ", ").as_str(), "])")
        },
        Cbor::Pairs(m) => {
            let ghost mv = c@->Pairs_0;
            let mut words: Vec<String> = Vec::new();
            let mut i: usize = 0;
            assert(mv.take(0) =~= Seq::empty());
            assert(text_views(words@) =~= Seq::empty());
            while i < m.len()
                invariant
                    i <= m@.len(),
                    *c is Pairs && *m == c->Pairs_0,
                    mv == c@->Pairs_0,
                    mv.len() == m@.len(),
                    spellable(c@),
                    text_views(words@) == spelled_pairs(mv.take(i as int)),
                decreases m.len() - i,
            {
                assert(decreases_to!(*m => m@[i as int]));
                assert(mv[i as int] == (m@[i as int].0@, m@[i as int].1@));
                assert(spellable(mv[i as int].0) && spellable(mv[i as int].1));
                assert(mv.take(i + 1).drop_last() =~= mv.take(i as int));
                let ghost before = text_views(words@);
                let mut word = cat3("(", spell(&m[i].0).as_str(), ", ");
                word.append(spell(&m[i].1).as_str());
                word.append(")");
                words.push(word);
                assert(text_views(words@) =~= before.push(word@));
                i += 1;
            }
            assert(mv.take(i as int) =~= mv);
            assert(text_views(words@) =~= Seq::new(words@.len(), |i: int| words@[i]@));
            cat3("Map([", join_texts(words.as_slice(), ", ").as_str(), "])")
        },
    }
}

/// A value that can be shown: its floats were put into words, and so were those in
/// the keys of its maps.
pub open spec fn showable(v: CborV) -> bool
    decreases v,
{
    match v {
        CborV::F64(_) => false,
        CborV::Array(a) => forall|i: int| 0 <= i < a.len() ==> showable(#[trigger] a[i]),
        CborV::Pairs(m) => forall|i: int|
            0 <= i < m.len() ==> spellable((#[trigger] m[i]).0) && showable(m[i].1),
        _ => true,
    }
}

/// Two blanks for every level.
pub open spec fn padding(indent: nat) -> Seq<char> {
    Seq::new(2 * indent, |i: int| ' ')
}

/// A value that holds no others.
pub open spec fn scalar_text(v: CborV) -> Seq<char> {
    match v {
        CborV::Text(s) => s,
        CborV::U64(n) => dec_text(n as nat),
        CborV::I64(n) => signed_text(n as int),
        CborV::Bool(b) => if b {
            "true"@
        } else {
            "false"@
        },
        CborV::Bytes(b) => "<"@ + dec_text(b.len()) + " bytes>"@,
        _ => "-"@,
    }
}

/// The value holds others.
pub open spec fn nests(v: CborV) -> bool {
    v is Pairs || v is Array
}

/// A value as lines: pairs and items one below the other, what is inside them
/// further in.
pub open spec fn shown(v: CborV, indent: nat) -> Seq<char>
    decreases v,
{
    match v {
        CborV::Pairs(m) => joined(pair_lines(m, indent), "
"@),
        CborV::Array(a) => joined(item_lines(a, indent), "
"@),
        _ => padding(indent) + scalar_text(v),
    }
}

/// The lines of a map's pairs.
pub open spec fn pair_lines(m: Seq<(CborV, CborV)>, indent: nat) -> Seq<Seq<char>>
    decreases m,
{
    if m.len() == 0 {
        Seq::empty()
    } else {
        let (k, v) = m.last();
        pair_lines(m.drop_last(), indent).push(
            if nests(v) {
                padding(indent) + key_text(k) + ":
"@ + shown(v, indent + 1)
            } else {
                padding(indent) + key_text(k) + ": "@ + scalar_text(v)
            },
        )
    }
}

/// The lines of a list's items.
pub open spec fn item_lines(a: Seq<CborV>, indent: nat) -> Seq<Seq<char>>
    decreases a,
{
    if a.len() == 0 {
        Seq::empty()
    } else {
        let v = a.last();
        item_lines(a.drop_last(), indent).push(
            if nests(v) {
                padding(indent) + "-
"@ + shown(v, indent + 1)
            } else {
                padding(indent) + "- "@ + scalar_text(v)
            },
        )
    }
}

fn pad(indent: usize) -> (r: String)
    ensures
        r@ == padding(indent as nat),
{
    let mut out = String::new();
    let mut i: usize = 0;
    assert(out@ =~= padding(0));
    while i < indent
        invariant
            i <= indent,
            out@ == padding(i as nat),
        decreases indent - i,
    {
        out.push(' ');
        out.push(' ');
        i += 1;
        assert(out@ =~= padding(i as nat));
    }
    out
}

fn render_scalar(c: &Cbor) -> (r: String)
    requires
        !(c@ is F64),
    ensures
        r@ == scalar_text(c@),
{
    match c {
        Cbor::Text(s) => s.as_str().to_string(),
        Cbor::U64(n) => u64_text(*n),
        Cbor::I64(n) => i64_text(*n),
        Cbor::Bool(b) => {
            if *b {
                "true".to_string()
            } else {
                "false".to_string()
            }
        },
        Cbor::Bytes(b) => cat3("<", u64_text(b.len() as u64).as_str(), " bytes>"),
        _ => "-".to_string(),
    }
}

fn nested(c: &Cbor) -> (r: bool)
    ensures
        r == nests(c@),
{
    match c {
        Cbor::Array(_) => true,
        Cbor::Pairs(_) => true,
        _ => false,
    }
}

/// Shows a value.
pub fn render(c: &Cbor, indent: usize) -> (r: String)
    requires
        showable(c@),
        indent + depth(c@) <= usize::MAX,
    ensures
        r@ == shown(c@, indent as nat),
    decreases c,
{
    match c {
        Cbor::Pairs(m) => {
            let ghost mv = c@->Pairs_0;
            let mut lines: Vec<String> = Vec::new();
            let mut i: usize = 0;
            assert(mv.take(0) =~= Seq::empty());
            assert(text_views(lines@) =~= Seq::empty());
            while i < m.len()
                invariant
                    i <= m@.len(),
                    *c is Pairs && *m == c->Pairs_0,
                    mv == c@->Pairs_0,
                    mv.len() == m@.len(),
                    showable(c@),
                    indent + depth(c@) <= usize::MAX,
                    text_views(lines@) == pair_lines(mv.take(i as int), indent as nat),
                decreases m.len() - i,
            {
                assert(decreases_to!(*m => m@[i as int]));
                assert(mv[i as int] == (m@[i as int].0@, m@[i as int].1@));
                assert(spellable(mv[i as int].0) && showable(mv[i as int].1));
                assert(mv.take(i + 1).drop_last() =~= mv.take(i as int));
                let mut line = pad(indent);
                match &m[i].0 {
                    Cbor::Text(k) => {
                        line.append(k.as_str());
                    },
                    other => {
                        line.append(spell(other).as_str());
                    },
                }
                if nested(&m[i].1) {
                    proof {
                        lemma_depth_pairs(mv, i as int);
                    }
                    let below = render(&m[i].1, indent + 1);
                    line.append(":
");
                    line.append(below.as_str());
                } else {
                    line.append(": ");
                    line.append(render_scalar(&m[i].1).as_str());
                }
                let ghost before = text_views(lines@);
                lines.push(line);
                assert(text_views(lines@) =~= before.push(line@));
                i += 1;
            }
            assert(mv.take(i as int) =~= mv);
            assert(text_views(lines@) =~= Seq::new(lines@.len(), |i: int| lines@[i]@));
            join_texts(lines.as_slice(), "
")
        },
        Cbor::Array(a) => {
            let ghost av = c@->Array_0;
            let mut lines: Vec<String> = Vec::new();
            let mut i: usize = 0;
            assert(av.take(0) =~= Seq::empty());
            assert(text_views(lines@) =~= Seq::empty());
            while i < a.len()
                invariant
                    i <= a@.len(),
                    *c is Array && *a == c->Array_0,
                    av == c@->Array_0,
                    av.len() == a@.len(),
                    showable(c@),
                    indent + depth(c@) <= usize::MAX,
                    text_views(lines@) == item_lines(av.take(i as int), indent as nat),
                decreases a.len() - i,
            {
                assert(decreases_to!(*a => a@[i as int]));
                assert(av[i as int] == a@[i as int]@);
                assert(showable(av[i as int]));
                assert(av.take(i + 1).drop_last() =~= av.take(i as int));
                let mut line = pad(indent);
                if nested(&a[i]) {
                    proof {
                        lemma_depth_items(av, i as int);
                    }
                    let below = render(&a[i], indent + 1);
                    line.append("-
");
                    line.append(below.as_str());
                } else {
                    line.append("- ");
                    line.append(render_scalar(&a[i]).as_str());
                }
                let ghost before = text_views(lines@);
                lines.push(line);
                assert(text_views(lines@) =~= before.push(line@));
                i += 1;
            }
            assert(av.take(i as int) =~= av);
            assert(text_views(lines@) =~= Seq::new(lines@.len(), |i: int| lines@[i]@));
            join_texts(lines.as_slice(), "
")
        },
        _ => cat2(pad(indent).as_str(), render_scalar(c).as_str()),
    }
}

/// How deep a value nests.
pub open spec fn depth(v: CborV) -> nat
    decreases v,
{
    match v {
        CborV::Array(a) => 1 + deepest(a),
        CborV::Pairs(m) => 1 + deepest_value(m),
        _ => 0,
    }
}

/// The depth of the deepest item.
pub open spec fn deepest(a: Seq<CborV>) -> nat
    decreases a,
{
    if a.len() == 0 {
        0
    } else {
        let x = deepest(a.drop_last());
        let y = depth(a.last());
        if x > y {
            x
        } else {
            y
        }
    }
}

/// The depth of the deepest value of a map.
pub open spec fn deepest_value(m: Seq<(CborV, CborV)>) -> nat
    decreases m,
{
    if m.len() == 0 {
        0
    } else {
        let x = deepest_value(m.drop_last());
        let y = depth(m.last().1);
        if x > y {
            x
        } else {
            y
        }
    }
}

proof fn lemma_depth_items(a: Seq<CborV>, i: int)
    requires
        0 <= i < a.len(),
    ensures
        depth(a[i]) <= deepest(a),
    decreases a.len(),
{
    if i < a.len() - 1 {
        lemma_depth_items(a.drop_last(), i);
    }
}

proof fn lemma_depth_pairs(m: Seq<(CborV, CborV)>, i: int)
    requires
        0 <= i < m.len(),
    ensures
        depth(m[i].1) <= deepest_value(m),
    decreases m.len(),
{
    if i < m.len() - 1 {
        lemma_depth_pairs(m.drop_last(), i);
    }
}

} // verus!
