//! Client-side adapters for DeepSeek models: fill-in-the-middle framing, the
//! split of a reasoning response, and the verb manifest for tool calling.

use vstd::prelude::*;
use crate::cbor::{map_value, views, Cbor, CborV};
use crate::text::{
    chars_between, chars_of, find_chars, find_from, str_eq, string_of, trim_chars, trimmed,
};

verus! {

/// A prefix and a suffix in fill-in-the-middle framing.
pub open spec fn fim_text(prefix: Seq<char>, suffix: Seq<char>) -> Seq<char> {
    "<|fim_begin|>"@ + prefix + "<|fim_hole|>"@ + suffix + "<|fim_end|>"@
}

pub fn fim_wrap(prefix: &str, suffix: &str) -> (r: String)
    ensures
        r@ == fim_text(prefix@, suffix@),
{
    let mut out = "<|fim_begin|>".to_owned();
    out.append(prefix);
    out.append("<|fim_hole|>");
    out.append(suffix);
    out.append("<|fim_end|>");
    out
}

/// The client a prompt is framed for.
#[derive(Clone, Copy, Debug, PartialEq, Eq, Structural)]
pub enum DeepSeekClientKind {
    Coder,
    V3,
    R1,
    Other,
}

impl DeepSeekClientKind {
    /// The kind with that client name; any other name is `Other`.
    pub fn parse(s: &str) -> (r: DeepSeekClientKind)
        ensures
            r == if s@ == "deepseek-coder"@ {
                DeepSeekClientKind::Coder
            } else if s@ == "deepseek-v3"@ {
                DeepSeekClientKind::V3
            } else if s@ == "deepseek-r1"@ {
                DeepSeekClientKind::R1
            } else {
                DeepSeekClientKind::Other
            },
    {
        if str_eq(s, "deepseek-coder") {
            DeepSeekClientKind::Coder
        } else if str_eq(s, "deepseek-v3") {
            DeepSeekClientKind::V3
        } else if str_eq(s, "deepseek-r1") {
            DeepSeekClientKind::R1
        } else {
            DeepSeekClientKind::Other
        }
    }
}

/// Frames an edit: coder models get the tags, all others a plain splice.
pub fn frame_edit_prompt(kind: DeepSeekClientKind, prefix: &str, suffix: &str) -> (r: String)
    ensures
        r@ == if kind == DeepSeekClientKind::Coder {
            fim_text(prefix@, suffix@)
        } else {
            prefix@ + suffix@
        },
{
    match kind {
        DeepSeekClientKind::Coder => fim_wrap(prefix, suffix),
        DeepSeekClientKind::V3 | DeepSeekClientKind::R1 | DeepSeekClientKind::Other => {
            let mut out = prefix.to_owned();
            out.append(suffix);
            out
        },
    }
}

/// A response split at its `<think>` blocks: what stands outside them, and
/// what stands inside. A block that is never closed reaches to the end.
pub open spec fn think_split(s: Seq<char>) -> (Seq<char>, Seq<char>)
    decreases s.len(),
{
    match find_from(s, "<think>"@, 0) {
        None => (s, Seq::empty()),
        Some(i) => {
            let after = s.skip(i + 7);
            match find_from(after, "</think>"@, 0) {
                None => (s.take(i), after),
                Some(j) => {
                    let rest = after.skip(j + 8);
                    if rest.len() < s.len() {
                        let (a, r) = think_split(rest);
                        (s.take(i) + a, after.take(j) + r)
                    } else {
                        (s.take(i), after.take(j))
                    }
                },
            }
        },
    }
}

/// Splits a response into answer and reasoning, both trimmed.
pub fn r1_strip(text: &str) -> (r: (String, String))
    ensures
        r.0@ == trimmed(think_split(text@).0),
        r.1@ == trimmed(think_split(text@).1),
{
    let s = chars_of(text);
    let open = chars_of("<think>");
    let close = chars_of("</think>");
    proof {
        reveal_strlit("<think>");
        reveal_strlit("</think>");
        assert(s@.skip(0) =~= s@);
    }
    let mut answer: Vec<char> = Vec::new();
    let mut reasoning: Vec<char> = Vec::new();
    let mut at: usize = 0;
    let mut done: bool = false;
    while !done
        invariant
            at <= s@.len(),
            s@ == text@,
            open@ == "<think>"@,
            close@ == "</think>"@,
            open@.len() == 7,
            close@.len() == 8,
            !done ==> answer@ + think_split(s@.skip(at as int)).0 == think_split(text@).0,
            !done ==> reasoning@ + think_split(s@.skip(at as int)).1 == think_split(text@).1,
            done ==> answer@ == think_split(text@).0,
            done ==> reasoning@ == think_split(text@).1,
        decreases s@.len() - at, if done { 0int } else { 1int },
    {
        let rest = chars_between(s.as_slice(), at, s.len());
        assert(rest@ =~= s@.skip(at as int));
        let ghost a0 = answer@;
        let ghost r0 = reasoning@;
        match find_chars(rest.as_slice(), open.as_slice(), 0) {
            None => {
                push_chars(&mut answer, rest.as_slice(), 0, rest.len());
                assert(answer@ =~= a0 + rest@);
                assert(reasoning@ =~= r0 + Seq::<char>::empty());
                done = true;
            },
            Some(i) => {
                push_chars(&mut answer, rest.as_slice(), 0, i);
                let after = chars_between(rest.as_slice(), i + 7, rest.len());
                assert(after@ =~= rest@.skip(i + 7));
                assert(rest@.subrange(0, i as int) =~= rest@.take(i as int));
                match find_chars(after.as_slice(), close.as_slice(), 0) {
                    Some(j) => {
                        push_chars(&mut reasoning, after.as_slice(), 0, j);
                        let ghost next = after@.skip(j + 8);
                        assert(after@.subrange(0, j as int) =~= after@.take(j as int));
                        assert(next =~= s@.skip(at + i + 15 + j));
                        at = at + i + 15 + j;
                        proof {
                            let (x, y) = think_split(next);
                            assert(answer@ + x =~= a0 + (rest@.take(i as int) + x));
                            assert(reasoning@ + y =~= r0 + (after@.take(j as int) + y));
                        }
                    },
                    None => {
                        push_chars(&mut reasoning, after.as_slice(), 0, after.len());
                        assert(reasoning@ =~= r0 + after@);
                        done = true;
                    },
                }
            },
        }
    }
    (
        string_of(trim_chars(answer.as_slice()).as_slice()),
        string_of(trim_chars(reasoning.as_slice()).as_slice()),
    )
}

fn push_chars(out: &mut Vec<char>, s: &[char], from: usize, to: usize)
    requires
        from <= to <= s@.len(),
    ensures
        final(out)@ == old(out)@ + s@.subrange(from as int, to as int),
{
    let mut i: usize = from;
    while i < to
        invariant
            from <= i <= to <= s@.len(),
            out@ == old(out)@ + s@.subrange(from as int, i as int),
        decreases to - i,
    {
        out.push(s[i]);
        i += 1;
        assert(out@ =~= old(out)@ + s@.subrange(from as int, i as int));
    }
}

/// A response without a `<think>` tag is all answer.
pub proof fn lemma_no_reasoning(s: Seq<char>)
    requires
        find_from(s, "<think>"@, 0) is None,
    ensures
        think_split(s) == (s, Seq::<char>::empty()),
{
}

/// What stands before a block, and before any other, is answer, and what stands inside it is
/// reasoning; what comes behind is split in turn. A block that is not closed reaches to the
/// end.
pub proof fn lemma_one_block(a: Seq<char>, b: Seq<char>, c: Seq<char>)
    requires
        find_from(a + "<think>"@ + b + "</think>"@ + c, "<think>"@, 0) == Some(a.len() as int),
        find_from(b + "</think>"@ + c, "</think>"@, 0) == Some(b.len() as int),
    ensures
        think_split(a + "<think>"@ + b + "</think>"@ + c) == (
            a + think_split(c).0,
            b + think_split(c).1,
        ),
{
    reveal_strlit("<think>");
    reveal_strlit("</think>");
    assert("<think>"@.len() == 7 && "</think>"@.len() == 8);
    let s = a + "<think>"@ + b + "</think>"@ + c;
    let after = s.skip(a.len() + 7int);
    assert(after =~= b + "</think>"@ + c);
    assert(after.skip(b.len() + 8int) =~= c);
    assert(s.take(a.len() as int) =~= a);
    assert(after.take(b.len() as int) =~= b);
}

/// Nothing but the tags is lost: answer and reasoning together are never
/// longer than the response, and as long as it where it holds no tag.
pub proof fn lemma_split_lengths(s: Seq<char>)
    ensures
        think_split(s).0.len() + think_split(s).1.len() <= s.len(),
    decreases s.len(),
{
    crate::text::lemma_find(s, "<think>"@, 0);
    reveal_strlit("<think>");
    reveal_strlit("</think>");
    match find_from(s, "<think>"@, 0) {
        None => {},
        Some(i) => {
            let after = s.skip(i + 7);
            crate::text::lemma_find(after, "</think>"@, 0);
            match find_from(after, "</think>"@, 0) {
                None => {},
                Some(j) => {
                    let rest = after.skip(j + 8);
                    lemma_split_lengths(rest);
                },
            }
        },
    }
}

/// A verb of the manifest.
pub open spec fn verb_value(
    name: Seq<char>,
    description: Seq<char>,
    args: Seq<(Seq<char>, CborV)>,
) -> CborV {
    map_value(
        seq![
            ("name"@, CborV::Text(name)),
            ("description"@, CborV::Text(description)),
            ("args"@, map_value(args)),
        ],
    )
}

fn verb(name: &str, description: &str, args: Vec<(&str, Cbor)>) -> (r: Cbor)
    ensures
        r@ == verb_value(
            name@,
            description@,
            Seq::new(args@.len(), |i: int| (args@[i].0@, args@[i].1@)),
        ),
{
    let ghost av = Seq::new(args@.len(), |i: int| (args@[i].0@, args@[i].1@));
    let pairs = vec![
        ("name", Cbor::t(name)),
        ("description", Cbor::t(description)),
        ("args", Cbor::map(args)),
    ];
    assert(Seq::new(pairs@.len(), |i: int| (pairs@[i].0@, pairs@[i].1@)) =~= seq![
        ("name"@, CborV::Text(name@)),
        ("description"@, CborV::Text(description@)),
        ("args"@, map_value(av)),
    ]);
    Cbor::map(pairs)
}

/// The verbs for tool-calling models: lower-case names, flat arguments.
pub open spec fn manifest_value() -> Seq<CborV> {
    seq![
        verb_value(
            "recall"@,
            "retrieve skeletons for a query at a token tier"@,
            seq![("query"@, CborV::Text("string"@)), ("tier"@, CborV::Text("L0|L1|L2|L3"@)), ("k"@, CborV::Text("int"@))],
        ),
        verb_value(
            "hydrate"@,
            "fetch the full body behind a handle"@,
            seq![("handle"@, CborV::Text("string"@))],
        ),
        verb_value(
            "write"@,
            "append a fact or blob (requires spec_anchor and work_budget)"@,
            seq![("subject"@, CborV::Text("string"@)), ("predicate"@, CborV::Text("string"@)), ("object"@, CborV::Text("string"@)), ("spec_anchor"@, CborV::Text("string"@))],
        ),
        verb_value(
            "subscribe"@,
            "register for events matching a glob pattern"@,
            seq![("pattern"@, CborV::Text("string"@))],
        ),
        verb_value(
            "view"@,
            "render a prefix-stable view"@,
            seq![("view_id"@, CborV::Text("string"@)), ("params"@, CborV::Text("string"@))],
        ),
        verb_value(
            "supersede"@,
            "replace an active fact or decision"@,
            seq![("old"@, CborV::Text("string"@)), ("new"@, CborV::Text("string"@))],
        ),
    ]
}

pub fn tools_manifest() -> (r: Cbor)
    ensures
        r@ == CborV::Array(manifest_value()),
{
    let a0 = vec![("query", Cbor::t("string")), ("tier", Cbor::t("L0|L1|L2|L3")), ("k", Cbor::t("int"))];
    assert(Seq::new(a0@.len(), |i: int| (a0@[i].0@, a0@[i].1@)) =~= seq![("query"@, CborV::Text("string"@)), ("tier"@, CborV::Text("L0|L1|L2|L3"@)), ("k"@, CborV::Text("int"@))]);
    let a1 = vec![("handle", Cbor::t("string"))];
    assert(Seq::new(a1@.len(), |i: int| (a1@[i].0@, a1@[i].1@)) =~= seq![("handle"@, CborV::Text("string"@))]);
    let a2 = vec![("subject", Cbor::t("string")), ("predicate", Cbor::t("string")), ("object", Cbor::t("string")), ("spec_anchor", Cbor::t("string"))];
    assert(Seq::new(a2@.len(), |i: int| (a2@[i].0@, a2@[i].1@)) =~= seq![("subject"@, CborV::Text("string"@)), ("predicate"@, CborV::Text("string"@)), ("object"@, CborV::Text("string"@)), ("spec_anchor"@, CborV::Text("string"@))]);
    let a3 = vec![("pattern", Cbor::t("string"))];
    assert(Seq::new(a3@.len(), |i: int| (a3@[i].0@, a3@[i].1@)) =~= seq![("pattern"@, CborV::Text("string"@))]);
    let a4 = vec![("view_id", Cbor::t("string")), ("params", Cbor::t("string"))];
    assert(Seq::new(a4@.len(), |i: int| (a4@[i].0@, a4@[i].1@)) =~= seq![("view_id"@, CborV::Text("string"@)), ("params"@, CborV::Text("string"@))]);
    let a5 = vec![("old", Cbor::t("string")), ("new", Cbor::t("string"))];
    assert(Seq::new(a5@.len(), |i: int| (a5@[i].0@, a5@[i].1@)) =~= seq![("old"@, CborV::Text("string"@)), ("new"@, CborV::Text("string"@))]);
    let items = vec![
        verb("recall", "retrieve skeletons for a query at a token tier", a0),
        verb("hydrate", "fetch the full body behind a handle", a1),
        verb("write", "append a fact or blob (requires spec_anchor and work_budget)", a2),
        verb("subscribe", "register for events matching a glob pattern", a3),
        verb("view", "render a prefix-stable view", a4),
        verb("supersede", "replace an active fact or decision", a5),
    ];
    assert(views(items@) =~= manifest_value());
    Cbor::arr(items)
}

} // verus!
