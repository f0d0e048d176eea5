//! Request lines and file paths.
//!
//! The path of a request is the second word of its first line, put after a
//! `.`; it is resolved against the current directory the way paths are joined
//! and normalized: empty and `.` components vanish, and `..` takes back the
//! component before it.
use vstd::prelude::*;
use vstd::string::StringSliceAdditionalSpecFns;

use crate::bytes::{
    bytes_eq, first_index, lemma_first_index, lemma_first_index_bound, lemma_split_nonempty,
    push_bytes, split, split_bytes, to_vec,
};
use crate::server::WebServer;

verus! {

/// At most `n + 1` pieces of `s` between the bytes equal to `d`: the first
/// `n` separators cut, and the rest stays in the last piece.
pub open spec fn splitn(s: Seq<u8>, d: u8, n: nat) -> Seq<Seq<u8>>
    decreases n,
{
    if n == 0 {
        seq![s]
    } else {
        match first_index(s, d) {
            Some(i) => seq![s.take(i as int)] + splitn(s.skip(i + 1 as int), d, (n - 1) as nat),
            None => seq![s],
        }
    }
}

/// `splitn` never yields an empty list of pieces.
pub proof fn lemma_splitn_nonempty(s: Seq<u8>, d: u8, n: nat)
    ensures
        splitn(s, d, n).len() >= 1,
    decreases n,
{
    if n > 0 {
        match first_index(s, d) {
            Some(i) => lemma_splitn_nonempty(s.skip(i + 1 as int), d, (n - 1) as nat),
            None => {},
        }
    }
}

/// The requested path of a request: `.` followed by the second of the words
/// that the first three spaces cut, where there are at least three words.
pub open spec fn request_path(req: Seq<u8>) -> Option<Seq<u8>> {
    let parts = splitn(req, 32u8, 3);
    if parts.len() > 2 {
        Some(seq![46u8] + parts[1])
    } else {
        None
    }
}

/// The path that asks for the counter page.
pub open spec fn counter_path() -> Seq<u8> {
    seq![46u8, 47u8]
}

/// The component `.`.
pub open spec fn dot() -> Seq<u8> {
    seq![46u8]
}

/// The component `..`.
pub open spec fn dotdot() -> Seq<u8> {
    seq![46u8, 46u8]
}

/// Every component is `..`.
pub open spec fn all_up(acc: Seq<Seq<u8>>) -> bool {
    forall|i: int| 0 <= i < acc.len() ==> acc[i] == dotdot()
}

/// The components of a path after normalization, read from left to right:
/// empty and `.` components are dropped; `..` drops the component before it,
/// is dropped at the root of an absolute path, and is kept where only `..`
/// components come before it.
pub open spec fn fold_components(comps: Seq<Seq<u8>>, is_abs: bool) -> Seq<Seq<u8>>
    decreases comps.len(),
{
    if comps.len() == 0 {
        Seq::empty()
    } else {
        let acc = fold_components(comps.drop_last(), is_abs);
        let c = comps.last();
        if c.len() == 0 || c == dot() {
            acc
        } else if c == dotdot() {
            if is_abs && acc.len() == 0 {
                acc
            } else if all_up(acc) {
                acc.push(c)
            } else {
                acc.drop_last()
            }
        } else {
            acc.push(c)
        }
    }
}

/// Components joined by `/`.
pub open spec fn join_components(c: Seq<Seq<u8>>) -> Seq<u8>
    decreases c.len(),
{
    if c.len() == 0 {
        Seq::empty()
    } else if c.len() == 1 {
        c[0]
    } else {
        join_components(c.drop_last()) + seq![47u8] + c.last()
    }
}

/// A path is absolute where it begins with `/`.
pub open spec fn is_absolute(p: Seq<u8>) -> bool {
    p.len() > 0 && p[0] == 47u8
}

/// The normal form of a path: an absolute path is `/` and its folded
/// components; a relative one is its folded components, or `.` where none
/// are left.
pub open spec fn normalize(p: Seq<u8>) -> Seq<u8> {
    let comps = fold_components(split(p, 47u8), is_absolute(p));
    if is_absolute(p) {
        seq![47u8] + join_components(comps)
    } else if comps.len() == 0 {
        dot()
    } else {
        join_components(comps)
    }
}

/// `rel` pushed onto the normalized path `base`: an absolute `rel` replaces
/// it, an empty one leaves it, and any other is appended after a `/`.
pub open spec fn join_path(base: Seq<u8>, rel: Seq<u8>) -> Seq<u8> {
    if rel.len() == 0 {
        base
    } else if rel[0] == 47u8 {
        normalize(rel)
    } else {
        normalize(base + seq![47u8] + rel)
    }
}

/// The file that a requested path names, seen from the directory `cwd`.
pub open spec fn resolve(cwd: Seq<u8>, rel: Seq<u8>) -> Seq<u8> {
    join_path(normalize(cwd), rel)
}

/// The index of the last byte of `s` equal to `d`.
pub open spec fn last_index(s: Seq<u8>, d: u8) -> Option<nat>
    decreases s.len(),
{
    if s.len() == 0 {
        None
    } else if s.last() == d {
        Some((s.len() - 1) as nat)
    } else {
        last_index(s.drop_last(), d)
    }
}

/// The extension of a path's last component: what follows its last `.`,
/// where that `.` is not its first byte; `..` has none.
pub open spec fn extension(p: Seq<u8>) -> Option<Seq<u8>> {
    let name = split(p, 47u8).last();
    if name == dotdot() {
        None
    } else {
        match last_index(name, 46u8) {
            None => None,
            Some(i) => if i == 0 {
                None
            } else {
                Some(name.skip(i + 1 as int))
            },
        }
    }
}

/// A path names a dynamic page where its extension is `shtml`.
pub open spec fn is_dynamic_page(p: Seq<u8>) -> bool {
    extension(p) == Some("shtml".spec_bytes())
}

/// The first index at or after `from` of a byte of `s` equal to `d`.
fn find_byte(s: &[u8], d: u8, from: usize) -> (r: Option<usize>)
    requires
        from <= s@.len(),
    ensures
        match r {
            Some(k) => from <= k < s@.len() && first_index(s@.skip(from as int), d) == Some(
                (k - from) as nat,
            ),
            None => first_index(s@.skip(from as int), d) is None,
        },
{
    let ghost rest = s@.skip(from as int);
    let mut k: usize = from;
    while k < s.len()
        invariant
            from <= k <= s@.len(),
            rest == s@.skip(from as int),
            forall|j: int| 0 <= j < k - from ==> rest[j] != d,
        decreases s@.len() - k,
    {
        if s[k] == d {
            proof {
                lemma_first_index(rest, d, k - from);
            }
            return Some(k);
        }
        k = k + 1;
    }
    proof {
        lemma_first_index(rest, d, k - from);
    }
    None
}

impl WebServer {
    /// The requested path of a request: `.` followed by its second word, where
    /// it has at least three words.
    pub fn request_path(req: &[u8]) -> (r: Option<Vec<u8>>)
        ensures
            match r {
                Some(p) => request_path(req@) == Some(p@),
                None => request_path(req@) is None,
            },
    {
        let ghost s = req@;
        match find_byte(req, 32u8, 0) {
            None => {
                assert(s.skip(0) == s);
                assert(splitn(s, 32u8, 3) == seq![s]);
                None
            },
            Some(i) => {
                assert(s.skip(0) == s);
                let ghost rest = s.skip(i + 1);
                proof {
                    lemma_first_index_bound(s, 32u8);
                }
                let len = req.len();
                assert(i < len);
                match find_byte(req, 32u8, i + 1) {
                    None => {
                        assert(splitn(rest, 32u8, 2) == seq![rest]);
                        assert(splitn(s, 32u8, 3) == seq![s.take(i as int)] + seq![rest]);
                        assert(splitn(s, 32u8, 3).len() == 2);
                        None
                    },
                    Some(j) => {
                        let ghost j2 = (j - (i + 1)) as nat;
                        let ghost rest2 = rest.skip(j2 + 1 as int);
                        proof {
                            lemma_splitn_nonempty(rest2, 32u8, 1);
                            assert(splitn(rest, 32u8, 2) == seq![rest.take(j2 as int)] + splitn(
                                rest2,
                                32u8,
                                1,
                            ));
                        }
                        let mut out: Vec<u8> = Vec::new();
                        out.push(46u8);
                        let mut k: usize = i + 1;
                        while k < j
                            invariant
                                i + 1 <= k <= j < s.len(),
                                s == req@,
                                out@ == seq![46u8] + s.subrange(i + 1, k as int),
                            decreases j - k,
                        {
                            out.push(req[k]);
                            k = k + 1;
                            assert(out@ =~= seq![46u8] + s.subrange(i + 1, k as int));
                        }
                        assert(rest.take(j2 as int) =~= s.subrange(i + 1, j as int));
                        Some(out)
                    },
                }
            },
        }
    }

    /// The normal form of a path.
    pub fn normalize_path(p: &[u8]) -> (r: Vec<u8>)
        ensures
            r@ == normalize(p@),
    {
        let is_abs = p.len() > 0 && p[0] == 47u8;
        let pieces = split_bytes(p, 47u8);
        let ghost pv = pieces.deep_view();
        let mut acc: Vec<Vec<u8>> = Vec::new();
        let mut n_up: usize = 0;
        let mut i: usize = 0;
        assert(pv.take(0) =~= Seq::<Seq<u8>>::empty());
        assert(acc.deep_view() =~= Seq::<Seq<u8>>::empty());
        while i < pieces.len()
            invariant
                pv == pieces.deep_view(),
                pv == split(p@, 47u8),
                is_abs == is_absolute(p@),
                i <= pv.len(),
                acc.deep_view() == fold_components(pv.take(i as int), is_abs),
                n_up <= acc@.len(),
                forall|j: int| 0 <= j < n_up ==> acc.deep_view()[j] == dotdot(),
                forall|j: int| n_up <= j < acc@.len() ==> acc.deep_view()[j] != dotdot(),
                is_abs ==> n_up == 0,
            decreases pv.len() - i,
        {
            let c = &pieces[i];
            let ghost cv = pv[i as int];
            let ghost before = acc.deep_view();
            assert(c@ == cv);
            assert(pv.take(i + 1).drop_last() == pv.take(i as int));
            assert(pv.take(i + 1).last() == cv);
            let is_dot = c.len() == 1 && c[0] == 46u8;
            let is_dotdot = c.len() == 2 && c[0] == 46u8 && c[1] == 46u8;
            assert(is_dot == (cv == dot())) by {
                if cv.len() == 1 && cv[0] == 46u8 {
                    assert(cv =~= dot());
                }
            }
            assert(is_dotdot == (cv == dotdot())) by {
                if cv.len() == 2 && cv[0] == 46u8 && cv[1] == 46u8 {
                    assert(cv =~= dotdot());
                }
            }
            assert(all_up(before) == (n_up == acc@.len())) by {
                if n_up < acc@.len() {
                    assert(before[n_up as int] != dotdot());
                }
            }
            if c.len() == 0 || is_dot {
            } else if is_dotdot {
                if is_abs && acc.len() == 0 {
                } else if n_up == acc.len() {
                    let dd = to_vec(c.as_slice());
                    assert(dd.deep_view() =~= dd@);
                    acc.push(dd);
                    assert(acc.deep_view() =~= before.push(cv));
                    n_up = acc.len();
                } else {
                    acc.pop();
                    assert(acc.deep_view() =~= before.drop_last());
                }
            } else {
                let cc = to_vec(c.as_slice());
                assert(cc.deep_view() =~= cc@);
                acc.push(cc);
                assert(acc.deep_view() =~= before.push(cv));
            }
            i = i + 1;
        }
        assert(pv.take(i as int) == pv);
        let ghost comps = acc.deep_view();
        let mut out: Vec<u8> = Vec::new();
        if is_abs {
            out.push(47u8);
        }
        let ghost start = out@;
        let mut j: usize = 0;
        assert(comps.take(0) =~= Seq::<Seq<u8>>::empty());
        while j < acc.len()
            invariant
                comps == acc.deep_view(),
                j <= comps.len(),
                out@ == start + join_components(comps.take(j as int)),
            decreases comps.len() - j,
        {
            let ghost prev = out@;
            assert(comps[j as int] == acc@[j as int]@);
            assert(comps.take(j + 1).drop_last() == comps.take(j as int));
            if j > 0 {
                out.push(47u8);
            }
            push_bytes(&mut out, acc[j].as_slice());
            assert(out@ =~= start + join_components(comps.take(j + 1)));
            j = j + 1;
        }
        assert(comps.take(j as int) == comps);
        if !is_abs && acc.len() == 0 {
            out.push(46u8);
            assert(out@ =~= dot());
        }
        proof {
            if !is_abs {
                assert(start =~= Seq::<u8>::empty());
                assert(out@ =~= normalize(p@));
            }
        }
        out
    }

    /// The file that the requested path `rel` names, seen from the directory
    /// `cwd`.
    pub fn resolve_path(cwd: &[u8], rel: &[u8]) -> (r: Vec<u8>)
        ensures
            r@ == resolve(cwd@, rel@),
    {
        let base = Self::normalize_path(cwd);
        if rel.len() == 0 {
            assert(rel@.len() == 0);
            base
        } else if rel[0] == 47u8 {
            Self::normalize_path(rel)
        } else {
            assert(rel@[0] != 47u8);
            let mut joined = base;
            joined.push(47u8);
            push_bytes(&mut joined, rel);
            assert(joined@ == normalize(cwd@) + seq![47u8] + rel@);
            Self::normalize_path(joined.as_slice())
        }
    }

    /// The extension of a path's last component.
    pub fn extension_of(p: &[u8]) -> (r: Option<Vec<u8>>)
        ensures
            match r {
                Some(e) => extension(p@) == Some(e@),
                None => extension(p@) is None,
            },
    {
        let pieces = split_bytes(p, 47u8);
        proof {
            lemma_split_nonempty(p@, 47u8);
        }
        let n = pieces.len();
        let name = &pieces[n - 1];
        let ghost nv = name@;
        assert(pieces.deep_view()[n - 1] =~= nv);
        assert(split(p@, 47u8).last() == nv);
        if name.len() == 2 && name[0] == 46u8 && name[1] == 46u8 {
            assert(nv =~= dotdot());
            return None;
        }
        assert(nv != dotdot()) by {
            if nv == dotdot() {
                assert(nv.len() == 2 && nv[0] == 46u8 && nv[1] == 46u8);
            }
        }
        let mut k: usize = name.len();
        assert(nv.take(k as int) == nv);
        while k > 0
            invariant
                k <= nv.len(),
                nv == name@,
                split(p@, 47u8).last() == nv,
                nv != dotdot(),
                last_index(nv, 46u8) == last_index(nv.take(k as int), 46u8),
            decreases k,
        {
            let ghost t = nv.take(k as int);
            assert(t.drop_last() == nv.take(k - 1));
            if name[k - 1] == 46u8 {
                assert(t.last() == 46u8);
                assert(last_index(nv, 46u8) == Some((k - 1) as nat));
                if k - 1 == 0 {
                    return None;
                }
                let mut out: Vec<u8> = Vec::new();
                let mut m: usize = k;
                while m < name.len()
                    invariant
                        k <= m <= nv.len(),
                        nv == name@,
                        out@ == nv.subrange(k as int, m as int),
                    decreases nv.len() - m,
                {
                    out.push(name[m]);
                    m = m + 1;
                    assert(out@ =~= nv.subrange(k as int, m as int));
                }
                assert(out@ =~= nv.skip(k as int));
                return Some(out);
            }
            k = k - 1;
        }
        assert(nv.take(0) =~= Seq::<u8>::empty());
        None
    }

    /// Tells whether a path names a dynamic page.
    pub fn is_dynamic_page(p: &[u8]) -> (r: bool)
        ensures
            r == is_dynamic_page(p@),
    {
        match Self::extension_of(p) {
            Some(e) => bytes_eq(e.as_slice(), "shtml".as_bytes()),
            None => false,
        }
    }
}

} // verus!
