//! Dynamic pages: `.shtml` files whose `<!--#exec cmd="..." -->` tags name
//! commands for the gash shell.
//!
//! The page's text is cut at every `<`; each piece that mentions `#exec` is a
//! tag, and its command is the text after its first double quote, up to the
//! next one. All the commands are run in order; the page is then served with
//! each command's tag replaced by that command's output, in one pass over the
//! page, so that no output is read again.
use vstd::prelude::*;
use vstd::string::StringSliceAdditionalSpecFns;

use crate::bytes::{
    contains, contains_bytes, is_utf8, lemma_split_nonempty, matches_at, push_bytes, replace_all,
    replace_bytes, split, split_bytes, starts_with, to_vec,
};
use crate::pages::{http_ok, http_ok_bytes};
use crate::server::WebServer;

verus! {

/// The marker of an exec tag.
pub open spec fn exec_marker() -> Seq<u8> {
    "#exec".spec_bytes()
}

/// The pieces of `s` between the bytes equal to `d`, with a trailing empty
/// piece left out, as `str::split_terminator` gives them.
pub open spec fn split_terminator(s: Seq<u8>, d: u8) -> Seq<Seq<u8>> {
    let p = split(s, d);
    if p.last().len() == 0 {
        p.drop_last()
    } else {
        p
    }
}

/// The command of an exec tag: its second piece between double quotes, or
/// nothing where it has no second piece.
pub open spec fn tag_command(tag: Seq<u8>) -> Option<Seq<u8>> {
    let p = split_terminator(tag, 34u8);
    if p.len() >= 2 {
        Some(p[1])
    } else {
        None
    }
}

/// The commands of the exec tags among `pieces`, in order, up to the first
/// tag that names none; the flag tells whether such a tag was met.
pub open spec fn commands_of(pieces: Seq<Seq<u8>>) -> (Seq<Seq<u8>>, bool)
    decreases pieces.len(),
{
    if pieces.len() == 0 {
        (Seq::empty(), false)
    } else if !contains(pieces[0], exec_marker()) {
        commands_of(pieces.drop_first())
    } else {
        match tag_command(pieces[0]) {
            None => (Seq::empty(), true),
            Some(c) => {
                let r = commands_of(pieces.drop_first());
                (seq![c] + r.0, r.1)
            },
        }
    }
}

/// The commands of a dynamic page, and whether a tag without a command stops
/// them.
pub open spec fn page_commands(contents: Seq<u8>) -> (Seq<Seq<u8>>, bool) {
    commands_of(split(contents, 60u8))
}

/// The full tag that a command's output replaces.
pub open spec fn exec_tag(cmd: Seq<u8>) -> Seq<u8> {
    "<!--#exec cmd=\"".spec_bytes() + cmd + "\" -->".spec_bytes()
}

/// The prompt that gash prints.
pub open spec fn gash_prompt() -> Seq<u8> {
    "[www] gash > ".spec_bytes()
}

/// The output of gash with its prompts and line breaks taken out.
pub open spec fn gash_clean(raw: Seq<u8>) -> Seq<u8> {
    replace_all(replace_all(raw, gash_prompt(), Seq::empty()), seq![10u8], Seq::empty())
}

/// A command's tag is never empty.
pub proof fn lemma_exec_tag_nonempty(cmd: Seq<u8>)
    ensures
        exec_tag(cmd).len() > 0,
{
    reveal_strlit("\" -->");
    broadcast use vstd::string::group_string_axioms;

    assert(vstd::string::is_ascii("\" -->"));
}

/// The first command, from the `j`-th on, whose tag begins `s`.
pub open spec fn tag_match(s: Seq<u8>, cmds: Seq<Seq<u8>>, j: nat) -> Option<nat>
    decreases cmds.len() - j,
{
    if j >= cmds.len() {
        None
    } else if starts_with(s, exec_tag(cmds[j as int])) {
        Some(j)
    } else {
        tag_match(s, cmds, j + 1)
    }
}

/// What `tag_match` finds is a command whose tag begins `s`, and no earlier
/// one from `j` on has its tag there.
pub proof fn lemma_tag_match(s: Seq<u8>, cmds: Seq<Seq<u8>>, j: nat)
    ensures
        tag_match(s, cmds, j) matches Some(k) ==> j <= k < cmds.len() && starts_with(
            s,
            exec_tag(cmds[k as int]),
        ),
    decreases cmds.len() - j,
{
    if j < cmds.len() && !starts_with(s, exec_tag(cmds[j as int])) {
        lemma_tag_match(s, cmds, j + 1);
    }
}

/// The page read once from left to right: where a command's tag begins (the
/// first such command in order), the tag is replaced by that command's
/// output, which is not read again; every other byte is kept.
pub open spec fn splice_outputs(s: Seq<u8>, cmds: Seq<Seq<u8>>, outputs: Seq<Seq<u8>>) -> Seq<u8>
    decreases s.len(),
{
    if s.len() == 0 {
        Seq::empty()
    } else {
        match tag_match(s, cmds, 0) {
            Some(k) => {
                proof {
                    lemma_tag_match(s, cmds, 0);
                    lemma_exec_tag_nonempty(cmds[k as int]);
                }
                outputs[k as int] + splice_outputs(
                    s.skip(exec_tag(cmds[k as int]).len() as int),
                    cmds,
                    outputs,
                )
            },
            None => seq![s[0]] + splice_outputs(s.skip(1), cmds, outputs),
        }
    }
}

/// The text served for a dynamic page whose commands gave `outputs`: the page
/// with every tag of a command replaced by that command's output.
pub open spec fn dynamic_output(contents: Seq<u8>, cmds: Seq<Seq<u8>>, outputs: Seq<Seq<u8>>) -> Seq<
    u8,
> {
    splice_outputs(contents, cmds, outputs)
}

/// Tests whether `t` begins the part of `s` from `i` on.
fn starts_at(s: &[u8], t: &[u8], i: usize) -> (r: bool)
    requires
        i <= s@.len(),
    ensures
        r == starts_with(s@.skip(i as int), t@),
{
    let r = matches_at(s, t, i);
    proof {
        let rest = s@.skip(i as int);
        if t@.len() <= rest.len() {
            assert(rest.subrange(0, t@.len() as int) =~= s@.subrange(i as int, i + t@.len()));
        }
    }
    r
}

/// The command of one exec tag.
pub fn tag_command_of(tag: &[u8]) -> (r: Option<Vec<u8>>)
    ensures
        match r {
            Some(c) => tag_command(tag@) == Some(c@),
            None => tag_command(tag@) is None,
        },
{
    let mut pieces = split_bytes(tag, 34u8);
    proof {
        lemma_split_nonempty(tag@, 34u8);
    }
    let ghost p = split(tag@, 34u8);
    let n = pieces.len();
    assert(pieces.deep_view()[n - 1] == pieces@[n - 1]@);
    if pieces[n - 1].len() == 0 {
        pieces.pop();
        assert(pieces.deep_view() =~= p.drop_last());
    }
    assert(pieces.deep_view() == split_terminator(tag@, 34u8));
    if pieces.len() >= 2 {
        assert(pieces.deep_view()[1] == pieces@[1]@);
        Some(to_vec(pieces[1].as_slice()))
    } else {
        None
    }
}

/// The commands of a dynamic page, in order, up to the first exec tag that
/// names none, and whether such a tag was met.
pub fn exec_commands(contents: &[u8]) -> (r: (Vec<Vec<u8>>, bool))
    ensures
        (r.0.deep_view(), r.1) == page_commands(contents@),
{
    let pieces = split_bytes(contents, 60u8);
    let ghost pv = pieces.deep_view();
    let marker = "#exec".as_bytes();
    let mut cmds: Vec<Vec<u8>> = Vec::new();
    let mut i: usize = 0;
    assert(pv.skip(0) == pv);
    assert(cmds.deep_view() =~= Seq::<Seq<u8>>::empty());
    while i < pieces.len()
        invariant
            pv == pieces.deep_view(),
            pv == split(contents@, 60u8),
            marker@ == exec_marker(),
            i <= pv.len(),
            commands_of(pv) == (cmds.deep_view() + commands_of(pv.skip(i as int)).0, commands_of(
                pv.skip(i as int),
            ).1),
        decreases pv.len() - i,
    {
        let ghost rest = pv.skip(i as int);
        assert(rest[0] == pieces@[i as int]@);
        assert(rest.drop_first() == pv.skip(i + 1));
        if contains_bytes(pieces[i].as_slice(), marker) {
            match tag_command_of(pieces[i].as_slice()) {
                Some(c) => {
                    let ghost before = cmds.deep_view();
                    let ghost cv = c@;
                    assert(c.deep_view() =~= c@);
                    cmds.push(c);
                    assert(cmds.deep_view() =~= before.push(cv));
                    assert(before + (seq![cv] + commands_of(pv.skip(i + 1)).0) =~= cmds.deep_view()
                        + commands_of(pv.skip(i + 1)).0);
                },
                None => {
                    assert(cmds.deep_view() + Seq::<Seq<u8>>::empty() =~= cmds.deep_view());
                    return (cmds, true);
                },
            }
        }
        i = i + 1;
    }
    assert(pv.skip(i as int) =~= Seq::<Seq<u8>>::empty());
    assert(cmds.deep_view() + Seq::<Seq<u8>>::empty() =~= cmds.deep_view());
    (cmds, false)
}

impl WebServer {
    /// What a gash run printed, made ready to stand in a page: `None` where
    /// it is not UTF-8 text, else the text without prompts or line breaks.
    pub fn gash_output(raw: &[u8]) -> (r: Option<Vec<u8>>)
        ensures
            match r {
                Some(v) => vstd::utf8::valid_utf8(raw@) && v@ == gash_clean(raw@),
                None => !vstd::utf8::valid_utf8(raw@),
            },
    {
        if !is_utf8(raw) {
            return None;
        }
        proof {
            reveal_strlit("[www] gash > ");
            broadcast use vstd::string::group_string_axioms;

            assert(vstd::string::is_ascii("[www] gash > "));
        }
        let empty: Vec<u8> = Vec::new();
        let once = replace_bytes(raw, "[www] gash > ".as_bytes(), empty.as_slice());
        let newline: Vec<u8> = vec![10u8];
        assert(newline@ =~= seq![10u8]);
        let twice = replace_bytes(once.as_slice(), newline.as_slice(), empty.as_slice());
        Some(twice)
    }

    /// The response to a dynamic page, given the page's text and the cleaned
    /// outputs of its commands in order.
    pub fn respond_with_dynamic_page(contents: &[u8], outputs: &Vec<Vec<u8>>) -> (r: Vec<u8>)
        requires
            !page_commands(contents@).1,
            outputs@.len() == page_commands(contents@).0.len(),
        ensures
            r@ == http_ok() + dynamic_output(
                contents@,
                page_commands(contents@).0,
                outputs.deep_view(),
            ),
    {
        let (cmds, _stopped) = exec_commands(contents);
        let ghost cv = cmds.deep_view();
        let ghost ov = outputs.deep_view();
        let ghost sv = contents@;
        let n = cmds.len();
        let mut tags: Vec<Vec<u8>> = Vec::new();
        let mut j: usize = 0;
        while j < n
            invariant
                n == cmds@.len(),
                cv == cmds.deep_view(),
                j <= n,
                tags@.len() == j,
                forall|m: int| 0 <= m < j ==> #[trigger] tags@[m]@ == exec_tag(cv[m]),
            decreases n - j,
        {
            let mut tag: Vec<u8> = Vec::new();
            push_bytes(&mut tag, "<!--#exec cmd=\"".as_bytes());
            push_bytes(&mut tag, cmds[j].as_slice());
            push_bytes(&mut tag, "\" -->".as_bytes());
            assert(cv[j as int] == cmds@[j as int]@);
            assert(tag@ =~= exec_tag(cv[j as int]));
            tags.push(tag);
            j = j + 1;
        }
        let mut out = http_ok_bytes();
        let ghost start = out@;
        let ghost mut done: Seq<u8> = Seq::empty();
        let len = contents.len();
        let mut i: usize = 0;
        assert(sv.skip(0) == sv);
        while i < len
            invariant
                len == sv.len(),
                sv == contents@,
                n == cv.len(),
                cv == cmds.deep_view(),
                ov == outputs.deep_view(),
                ov.len() == n,
                tags@.len() == n,
                forall|m: int| 0 <= m < n ==> #[trigger] tags@[m]@ == exec_tag(cv[m]),
                i <= len,
                out@ == start + done,
                done + splice_outputs(sv.skip(i as int), cv, ov) == splice_outputs(sv, cv, ov),
            decreases len - i,
        {
            let ghost rest = sv.skip(i as int);
            let mut k: usize = 0;
            let mut found = false;
            while k < n && !found
                invariant
                    n == cv.len(),
                    tags@.len() == n,
                    forall|m: int| 0 <= m < n ==> #[trigger] tags@[m]@ == exec_tag(cv[m]),
                    i <= len,
                    len == sv.len(),
                    sv == contents@,
                    rest == sv.skip(i as int),
                    k <= n,
                    found ==> k < n && tag_match(rest, cv, 0) == Some(k as nat),
                    !found ==> tag_match(rest, cv, 0) == tag_match(rest, cv, k as nat),
                decreases n - k, !found as int,
            {
                if starts_at(contents, tags[k].as_slice(), i) {
                    found = true;
                } else {
                    k = k + 1;
                }
            }
            assert(rest.len() > 0);
            if found {
                let tl = tags[k].len();
                proof {
                    lemma_exec_tag_nonempty(cv[k as int]);
                    lemma_tag_match(rest, cv, 0);
                    assert(tags@[k as int]@ == exec_tag(cv[k as int]));
                    assert(tl <= rest.len());
                    assert(ov[k as int] == outputs@[k as int]@);
                    assert(rest.skip(tl as int) =~= sv.skip(i + tl));
                }
                push_bytes(&mut out, outputs[k].as_slice());
                proof {
                    done = done + ov[k as int];
                }
                i = i + tl;
            } else {
                proof {
                    assert(rest.skip(1) == sv.skip(i + 1));
                    done = done.push(sv[i as int]);
                }
                out.push(contents[i]);
                i = i + 1;
            }
        }
        assert(sv.skip(i as int) =~= Seq::<u8>::empty());
        assert(done + Seq::<u8>::empty() =~= done);
        out
    }
}

} // verus!
