//! A structured document: the dotted-path projector works on these trees.
//! A document is a string, a list, or a mapping with insertion-ordered keys.
use vstd::prelude::*;

verus! {

/// An executable document tree.
#[derive(Debug)]
pub enum Doc {
    Str(String),
    List(Vec<Doc>),
    Mapping(Vec<(String, Doc)>),
}

/// The mathematical model of a document tree.
#[verifier::ext_equal]
pub enum DocView {
    Str(Seq<char>),
    List(Seq<DocView>),
    Mapping(Seq<(Seq<char>, DocView)>),
}

pub open spec fn doc_view(d: Doc) -> DocView
    decreases d,
{
    match d {
        Doc::Str(s) => DocView::Str(s@),
        Doc::List(l) => DocView::List(
            Seq::new(
                l@.len(),
                |i: int|
                    if 0 <= i < l@.len() {
                        doc_view(l@[i])
                    } else {
                        DocView::Str(Seq::empty())
                    },
            ),
        ),
        Doc::Mapping(es) => DocView::Mapping(
            Seq::new(
                es@.len(),
                |i: int|
                    if 0 <= i < es@.len() {
                        (es@[i].0@, doc_view(es@[i].1))
                    } else {
                        (Seq::empty(), DocView::Str(Seq::empty()))
                    },
            ),
        ),
    }
}

impl View for Doc {
    type V = DocView;

    open spec fn view(&self) -> DocView {
        doc_view(*self)
    }
}

impl Doc {
    /// A copy whose view equals this one's.
    pub fn duplicate(&self) -> (r: Doc)
        ensures
            r@ == self@,
        decreases *self,
    {
        match self {
            Doc::Str(s) => Doc::Str(s.clone()),
            Doc::List(l) => {
                let mut out: Vec<Doc> = Vec::new();
                let n = l.len();
                let mut i: usize = 0;
                while i < n
                    invariant
                        n == l@.len(),
                        i <= n,
                        out@.len() == i,
                        *self == Doc::List(*l),
                        forall|j: int| 0 <= j < i ==> (#[trigger] out@[j])@ == l@[j]@,
                    decreases n - i,
                {
                    proof {
                        assert(decreases_to!(*self => self->List_0));
                        assert(decreases_to!(self->List_0 => self->List_0@));
                        assert(decreases_to!(self->List_0@ => self->List_0@[i as int]));
                        assert(decreases_to!(*self => l@[i as int]));
                    }
                    out.push(l[i].duplicate());
                    i += 1;
                }
                let r = Doc::List(out);
                proof {
                    let rs = r@->List_0;
                    let ss = self@->List_0;
                    assert forall|j: int| 0 <= j < rs.len() implies rs[j] == ss[j] by {
                        assert(doc_view(out@[j]) == doc_view(l@[j]));
                    }
                    assert(rs =~= ss);
                    assert(r@ =~= self@);
                }
                r
            },
            Doc::Mapping(es) => {
                let mut out: Vec<(String, Doc)> = Vec::new();
                let n = es.len();
                let mut i: usize = 0;
                while i < n
                    invariant
                        n == es@.len(),
                        i <= n,
                        out@.len() == i,
                        *self == Doc::Mapping(*es),
                        forall|j: int| 0 <= j < i ==> (#[trigger] out@[j]).0@ == es@[j].0@
                            && out@[j].1@ == es@[j].1@,
                    decreases n - i,
                {
                    proof {
                        assert(decreases_to!(*self => self->Mapping_0));
                        assert(decreases_to!(self->Mapping_0 => self->Mapping_0@));
                        assert(decreases_to!(self->Mapping_0@ => self->Mapping_0@[i as int]));
                        assert(decreases_to!(self->Mapping_0@[i as int] => self->Mapping_0@[i as int].1));
                        assert(decreases_to!(*self => es@[i as int].1));
                    }
                    out.push((es[i].0.clone(), es[i].1.duplicate()));
                    i += 1;
                }
                let r = Doc::Mapping(out);
                proof {
                    let rs = r@->Mapping_0;
                    let ss = self@->Mapping_0;
                    assert forall|j: int| 0 <= j < rs.len() implies rs[j] == ss[j] by {
                        assert(out@[j].0@ == es@[j].0@);
                        assert(doc_view(out@[j].1) == doc_view(es@[j].1));
                    }
                    assert(rs =~= ss);
                    assert(r@ =~= self@);
                }
                r
            },
        }
    }
}

// ---------------------------------------------------------------------------
// Dotted paths
// ---------------------------------------------------------------------------
pub open spec fn strings_view(s: Seq<String>) -> Seq<Seq<char>> {
    s.map_values(|x: String| x@)
}

pub open spec fn split_acc(s: Seq<char>, cur: Seq<char>) -> Seq<Seq<char>>
    decreases s.len(),
{
    if s.len() == 0 {
        if cur.len() == 0 {
            Seq::<Seq<char>>::empty()
        } else {
            seq![cur]
        }
    } else if s[0] == '.' {
        (if cur.len() == 0 {
            Seq::<Seq<char>>::empty()
        } else {
            seq![cur]
        }) + split_acc(s.drop_first(), Seq::empty())
    } else {
        split_acc(s.drop_first(), cur.push(s[0]))
    }
}

/// The dot-separated segments of a mask entry; empty segments are dropped.
pub open spec fn split_path(s: Seq<char>) -> Seq<Seq<char>> {
    split_acc(s, Seq::<char>::empty())
}

/// Splits a mask entry at the dots.
pub fn parse_path(s: &String) -> (r: Vec<String>)
    ensures
        strings_view(r@) == split_path(s@),
{
    let st: &str = s.as_str();
    let n = st.unicode_len();
    let mut segs: Vec<String> = Vec::new();
    let mut start: usize = 0;
    let mut i: usize = 0;
    proof {
        assert(s@.skip(0) =~= s@);
        assert(s@.subrange(0, 0) =~= Seq::<char>::empty());
        assert(strings_view(segs@) + split_acc(s@, Seq::<char>::empty()) =~= split_acc(
            s@,
            Seq::<char>::empty(),
        ));
    }
    while i < n
        invariant
            n == s@.len(),
            st@ == s@,
            start <= i <= n,
            split_path(s@) == strings_view(segs@) + split_acc(
                s@.skip(i as int),
                s@.subrange(start as int, i as int),
            ),
            forall|j: int| start <= j < i ==> s@[j] != '.',
        decreases n - i,
    {
        let ghost rest = s@.skip(i as int);
        let ghost cur = s@.subrange(start as int, i as int);
        proof {
            assert(rest.len() > 0);
            assert(rest[0] == s@[i as int]);
            assert(rest.drop_first() =~= s@.skip(i as int + 1));
        }
        if st.get_char(i) == '.' {
            if i > start {
                let seg = st.substring_char(start, i).to_owned();
                proof {
                    assert(cur.len() > 0);
                    assert(strings_view(segs@.push(seg)) =~= strings_view(segs@) + seq![cur]);
                    assert(split_acc(rest, cur) == seq![cur] + split_acc(
                        rest.drop_first(),
                        Seq::<char>::empty(),
                    ));
                }
                segs.push(seg);
            } else {
                proof {
                    assert(cur.len() == 0);
                    assert(strings_view(segs@) + split_acc(rest, cur) =~= strings_view(segs@)
                        + split_acc(rest.drop_first(), Seq::<char>::empty()));
                }
            }
            start = i + 1;
            proof {
                assert(s@.subrange(start as int, start as int) =~= Seq::<char>::empty());
            }
        } else {
            proof {
                assert(split_acc(rest, cur) == split_acc(rest.drop_first(), cur.push(s@[i as int])));
                assert(cur.push(s@[i as int]) =~= s@.subrange(start as int, i as int + 1));
            }
        }
        i += 1;
    }
    let ghost cur = s@.subrange(start as int, n as int);
    proof {
        assert(s@.skip(n as int) =~= Seq::<char>::empty());
    }
    if n > start {
        let seg = st.substring_char(start, n).to_owned();
        proof {
            assert(cur.len() > 0);
            assert(strings_view(segs@.push(seg)) =~= strings_view(segs@) + seq![cur]);
        }
        segs.push(seg);
    } else {
        proof {
            assert(cur.len() == 0);
            assert(strings_view(segs@) + split_acc(Seq::<char>::empty(), cur) =~= strings_view(
                segs@,
            ));
        }
    }
    segs
}

// ---------------------------------------------------------------------------
// Numeric segments (sequence indices)
// ---------------------------------------------------------------------------
pub open spec fn is_digits(s: Seq<char>) -> bool {
    s.len() > 0 && forall|i: int| 0 <= i < s.len() ==> '0' <= #[trigger] s[i] <= '9'
}

pub open spec fn digits_val(s: Seq<char>) -> int
    decreases s.len(),
{
    if s.len() == 0 {
        0
    } else {
        digits_val(s.drop_last()) * 10 + (s.last() as int - '0' as int)
    }
}

/// The numeric value of a path segment made of digits alone.
pub open spec fn seg_index(s: Seq<char>) -> Option<int> {
    if is_digits(s) {
        Some(digits_val(s))
    } else {
        None
    }
}

proof fn lemma_digits_val_monotone(s: Seq<char>, i: int)
    requires
        0 <= i <= s.len(),
        forall|j: int| 0 <= j < s.len() ==> '0' <= #[trigger] s[j] <= '9',
    ensures
        digits_val(s) >= digits_val(s.subrange(0, i)),
        digits_val(s) >= 0,
    decreases s.len() - i,
{
    if i == s.len() {
        assert(s.subrange(0, i) =~= s);
        lemma_digits_val_nonneg(s);
    } else {
        lemma_digits_val_monotone(s, i + 1);
        let p = s.subrange(0, i + 1);
        assert(p.drop_last() =~= s.subrange(0, i));
        lemma_digits_val_nonneg(s.subrange(0, i));
        assert(digits_val(p) == digits_val(s.subrange(0, i)) * 10 + (s[i] as int - '0' as int));
        assert(digits_val(p) >= digits_val(s.subrange(0, i))) by (nonlinear_arith)
            requires
                digits_val(p) == digits_val(s.subrange(0, i)) * 10 + (s[i] as int - '0' as int),
                digits_val(s.subrange(0, i)) >= 0,
                s[i] as int - '0' as int >= 0,
        ;
    }
}

proof fn lemma_digits_val_nonneg(s: Seq<char>)
    requires
        forall|j: int| 0 <= j < s.len() ==> '0' <= #[trigger] s[j] <= '9',
    ensures
        digits_val(s) >= 0,
    decreases s.len(),
{
    if s.len() > 0 {
        lemma_digits_val_nonneg(s.drop_last());
        assert(digits_val(s.drop_last()) * 10 >= 0) by (nonlinear_arith)
            requires
                digits_val(s.drop_last()) >= 0,
        ;
    }
}

/// Reads a path segment as a sequence index, if it is all digits and fits.
pub fn parse_index(s: &String) -> (r: Option<usize>)
    ensures
        (r matches Some(i) ==> seg_index(s@) == Some(i as int)),
        (r is None ==> seg_index(s@) is None || seg_index(s@)->0 > usize::MAX as int),
{
    let st: &str = s.as_str();
    let n = st.unicode_len();
    if n == 0 {
        return None;
    }
    let mut acc: usize = 0;
    let mut i: usize = 0;
    while i < n
        invariant
            n == s@.len(),
            st@ == s@,
            n > 0,
            i <= n,
            forall|j: int| 0 <= j < i ==> '0' <= #[trigger] s@[j] <= '9',
            acc as int == digits_val(s@.subrange(0, i as int)),
        decreases n - i,
    {
        let c = st.get_char(i);
        if !('0' <= c && c <= '9') {
            assert(!is_digits(s@));
            return None;
        }
        let d: usize = (c as u32 as usize) - ('0' as u32 as usize);
        assert(d <= 9);
        if acc > usize::MAX / 10 || (acc == usize::MAX / 10 && d > usize::MAX % 10) {
            proof {
                let p = s@.subrange(0, i as int + 1);
                assert(p.drop_last() =~= s@.subrange(0, i as int));
                assert(digits_val(p) == acc as int * 10 + d);
                assert(acc as int * 10 + d > usize::MAX as int) by (nonlinear_arith)
                    requires
                        acc > usize::MAX / 10 || (acc == usize::MAX / 10 && d > usize::MAX % 10),
                        d <= 9,
                        acc >= 0,
                ;
                if is_digits(s@) {
                    lemma_digits_val_monotone(s@, i as int + 1);
                }
            }
            return None;
        }
        proof {
            assert(acc as int * 10 + d <= usize::MAX as int) by (nonlinear_arith)
                requires
                    acc <= usize::MAX / 10,
                    acc == usize::MAX / 10 ==> d <= usize::MAX % 10,
                    d <= 9,
                    acc >= 0,
            ;
            let p = s@.subrange(0, i as int + 1);
            assert(p.drop_last() =~= s@.subrange(0, i as int));
            assert(p.last() == s@[i as int]);
            assert(s@[i as int] == c);
            assert(c as int - '0' as int == d);
        }
        acc = acc * 10 + d;
        i += 1;
    }
    proof {
        assert(s@.subrange(0, n as int) =~= s@);
        assert(is_digits(s@));
    }
    Some(acc)
}

// ---------------------------------------------------------------------------
// Reading, setting and removing at a dotted path
// ---------------------------------------------------------------------------
/// The value stored under the first entry with key `k`, if any.
pub open spec fn entries_get(es: Seq<(Seq<char>, DocView)>, k: Seq<char>) -> Option<DocView>
    decreases es.len(),
{
    if es.len() == 0 {
        None
    } else if es[0].0 == k {
        Some(es[0].1)
    } else {
        entries_get(es.drop_first(), k)
    }
}

/// Replaces the first entry with key `k` in place, or appends a new entry.
pub open spec fn entries_put(
    es: Seq<(Seq<char>, DocView)>,
    k: Seq<char>,
    v: DocView,
) -> Seq<(Seq<char>, DocView)>
    decreases es.len(),
{
    if es.len() == 0 {
        seq![(k, v)]
    } else if es[0].0 == k {
        seq![(k, v)] + es.drop_first()
    } else {
        seq![es[0]] + entries_put(es.drop_first(), k, v)
    }
}

/// Drops the first entry with key `k`, if any.
pub open spec fn entries_remove(es: Seq<(Seq<char>, DocView)>, k: Seq<char>) -> Seq<
    (Seq<char>, DocView),
>
    decreases es.len(),
{
    if es.len() == 0 {
        es
    } else if es[0].0 == k {
        es.drop_first()
    } else {
        seq![es[0]] + entries_remove(es.drop_first(), k)
    }
}

/// The sub-document at `path`: mapping segments select keys, digit segments
/// select list elements.
pub open spec fn doc_get_v(d: DocView, path: Seq<Seq<char>>) -> Option<DocView>
    decreases path.len(),
{
    if path.len() == 0 {
        Some(d)
    } else {
        match d {
            DocView::Str(_) => None,
            DocView::List(l) => match seg_index(path[0]) {
                Some(i) => if 0 <= i < l.len() {
                    doc_get_v(l[i], path.drop_first())
                } else {
                    None
                },
                None => None,
            },
            DocView::Mapping(es) => match entries_get(es, path[0]) {
                Some(c) => doc_get_v(c, path.drop_first()),
                None => None,
            },
        }
    }
}

/// Sets `v` at `path`, creating missing intermediate mappings; `None` when
/// the path is empty or traverses into a non-mapping.
pub open spec fn doc_set_v(d: DocView, path: Seq<Seq<char>>, v: DocView) -> Option<DocView>
    decreases path.len(),
{
    if path.len() == 0 {
        None
    } else {
        match d {
            DocView::Mapping(es) => if path.len() == 1 {
                Some(DocView::Mapping(entries_put(es, path[0], v)))
            } else {
                let child = match entries_get(es, path[0]) {
                    Some(c) => c,
                    None => DocView::Mapping(Seq::empty()),
                };
                match doc_set_v(child, path.drop_first(), v) {
                    Some(c2) => Some(DocView::Mapping(entries_put(es, path[0], c2))),
                    None => None,
                }
            },
            _ => None,
        }
    }
}

/// Removes the entry at `path`; a missing entry is kept silently, but a path
/// that is empty or traverses into a non-mapping is an error (`None`).
pub open spec fn doc_remove_v(d: DocView, path: Seq<Seq<char>>) -> Option<DocView>
    decreases path.len(),
{
    if path.len() == 0 {
        None
    } else {
        match d {
            DocView::Mapping(es) => if path.len() == 1 {
                Some(DocView::Mapping(entries_remove(es, path[0])))
            } else {
                match entries_get(es, path[0]) {
                    Some(c) => match doc_remove_v(c, path.drop_first()) {
                        Some(c2) => Some(DocView::Mapping(entries_put(es, path[0], c2))),
                        None => None,
                    },
                    None => Some(d),
                }
            },
            _ => None,
        }
    }
}

pub proof fn lemma_entries_get_skip(es: Seq<(Seq<char>, DocView)>, k: Seq<char>, i: int)
    requires
        0 <= i <= es.len(),
        forall|j: int| 0 <= j < i ==> (#[trigger] es[j]).0 != k,
    ensures
        entries_get(es, k) == entries_get(es.skip(i), k),
    decreases i,
{
    if i == 0 {
        assert(es.skip(0) =~= es);
    } else {
        lemma_entries_get_skip(es, k, i - 1);
        let p = es.skip(i - 1);
        assert(p[0] == es[i - 1]);
        assert(p.drop_first() =~= es.skip(i));
    }
}

pub proof fn lemma_entries_put_skip(es: Seq<(Seq<char>, DocView)>, k: Seq<char>, v: DocView, i: int)
    requires
        0 <= i <= es.len(),
        forall|j: int| 0 <= j < i ==> (#[trigger] es[j]).0 != k,
    ensures
        entries_put(es, k, v) == es.take(i) + entries_put(es.skip(i), k, v),
    decreases i,
{
    if i == 0 {
        assert(es.skip(0) =~= es);
        assert(es.take(0) + entries_put(es, k, v) =~= entries_put(es, k, v));
    } else {
        lemma_entries_put_skip(es, k, v, i - 1);
        let p = es.skip(i - 1);
        assert(p[0] == es[i - 1]);
        assert(p.drop_first() =~= es.skip(i));
        assert(entries_put(p, k, v) == seq![p[0]] + entries_put(es.skip(i), k, v));
        assert(es.take(i - 1) + (seq![es[i - 1]] + entries_put(es.skip(i), k, v)) =~= es.take(i)
            + entries_put(es.skip(i), k, v));
    }
}

pub proof fn lemma_entries_remove_skip(es: Seq<(Seq<char>, DocView)>, k: Seq<char>, i: int)
    requires
        0 <= i <= es.len(),
        forall|j: int| 0 <= j < i ==> (#[trigger] es[j]).0 != k,
    ensures
        entries_remove(es, k) == es.take(i) + entries_remove(es.skip(i), k),
    decreases i,
{
    if i == 0 {
        assert(es.skip(0) =~= es);
        assert(es.take(0) + entries_remove(es, k) =~= entries_remove(es, k));
    } else {
        lemma_entries_remove_skip(es, k, i - 1);
        let p = es.skip(i - 1);
        assert(p[0] == es[i - 1]);
        assert(p.drop_first() =~= es.skip(i));
        assert(entries_remove(p, k) == seq![p[0]] + entries_remove(es.skip(i), k));
        assert(es.take(i - 1) + (seq![es[i - 1]] + entries_remove(es.skip(i), k)) =~= es.take(i)
            + entries_remove(es.skip(i), k));
    }
}

impl Doc {
    /// Reads the sub-document at `path[from..]`.
    pub fn get_path<'a>(&'a self, path: &Vec<String>, from: usize) -> (r: Option<&'a Doc>)
        requires
            from <= path@.len(),
        ensures
            match r {
                Some(d) => doc_get_v(self@, strings_view(path@).skip(from as int)) == Some(d@),
                None => doc_get_v(self@, strings_view(path@).skip(from as int)) is None,
            },
        decreases path@.len() - from,
    {
        let ghost segs = strings_view(path@).skip(from as int);
        let plen = path.len();
        if from == plen {
            proof {
                assert(segs.len() == 0);
            }
            return Some(self);
        }
        proof {
            assert(segs[0] == path@[from as int]@);
            assert(segs.drop_first() =~= strings_view(path@).skip(from as int + 1));
        }
        match self {
            Doc::Str(_) => {
                proof {
                    assert(doc_get_v(self@, segs) is None);
                }
                None
            },
            Doc::List(l) => {
                let llen = l.len();
                match parse_index(&path[from]) {
                    Some(ix) => {
                        if ix < llen {
                            proof {
                                assert(decreases_to!(*self => self->List_0));
                                assert(decreases_to!(self->List_0 => self->List_0@));
                                assert(decreases_to!(self->List_0@ => self->List_0@[ix as int]));
                                assert(self@->List_0[ix as int] == l@[ix as int]@);
                            }
                            let r = l[ix].get_path(path, from + 1);
                            r
                        } else {
                            proof {
                                assert(self@->List_0.len() == l@.len());
                                assert(doc_get_v(self@, segs) is None);
                            }
                            None
                        }
                    },
                    None => {
                        proof {
                            assert(self@->List_0.len() == l@.len() <= usize::MAX);
                            assert(doc_get_v(self@, segs) is None);
                        }
                        None
                    },
                }
            },
            Doc::Mapping(es) => {
                let key = &path[from];
                let n = es.len();
                let mut i: usize = 0;
                while i < n
                    invariant
                        n == es@.len(),
                        i <= n,
                        from < path@.len(),
                        plen == path@.len(),
                        segs.len() > 0,
                        key@ == segs[0],
                        *self == Doc::Mapping(*es),
                        segs == strings_view(path@).skip(from as int),
                        forall|j: int| 0 <= j < i ==> (#[trigger] self@->Mapping_0[j]).0 != segs[0],
                    decreases n - i,
                {
                    if es[i].0 == *key {
                        proof {
                            lemma_entries_get_skip(self@->Mapping_0, segs[0], i as int);
                            assert(self@->Mapping_0.skip(i as int)[0] == self@->Mapping_0[i as int]);
                            assert(self@->Mapping_0[i as int] == (es@[i as int].0@, es@[i as int].1@));
                            assert(entries_get(self@->Mapping_0, segs[0]) == Some(es@[i as int].1@));
                            assert(segs.drop_first() =~= strings_view(path@).skip(from as int + 1));
                            assert(decreases_to!(*self => self->Mapping_0));
                            assert(decreases_to!(self->Mapping_0 => self->Mapping_0@));
                            assert(decreases_to!(self->Mapping_0@ => self->Mapping_0@[i as int]));
                            assert(decreases_to!(self->Mapping_0@[i as int] => self->Mapping_0@[
                                i as int
                            ].1));
                        }
                        let r = es[i].1.get_path(path, from + 1);
                        proof {
                            assert(match r {
                                Some(d) => doc_get_v(self@, segs) == Some(d@),
                                None => doc_get_v(self@, segs) is None,
                            });
                        }
                        return r;
                    }
                    proof {
                        assert(self@->Mapping_0[i as int].0 == es@[i as int].0@);
                    }
                    i += 1;
                }
                proof {
                    lemma_entries_get_skip(self@->Mapping_0, segs[0], n as int);
                    assert(self@->Mapping_0.skip(n as int) =~= Seq::<(Seq<char>, DocView)>::empty());
                }
                None
            },
        }
    }
}

impl Doc {
    /// Sets `v` at `path[from..]`, creating missing intermediate mappings.
    /// On failure the document comes back unchanged.
    pub fn set_path(self, path: &Vec<String>, from: usize, v: Doc) -> (r: (Doc, bool))
        requires
            from <= path@.len(),
        ensures
            match doc_set_v(self@, strings_view(path@).skip(from as int), v@) {
                Some(d) => r.1 && r.0@ == d,
                None => !r.1 && r.0@ == self@,
            },
        decreases path@.len() - from,
    {
        let ghost segs = strings_view(path@).skip(from as int);
        let plen = path.len();
        if from == plen {
            proof {
                assert(segs.len() == 0);
            }
            return (self, false);
        }
        proof {
            assert(segs[0] == path@[from as int]@);
            assert(segs.drop_first() =~= strings_view(path@).skip(from as int + 1));
        }
        match self {
            Doc::Str(s) => (Doc::Str(s), false),
            Doc::List(l) => (Doc::List(l), false),
            Doc::Mapping(mut es) => {
                let ghost mv = Doc::Mapping(es)@->Mapping_0;
                let key = &path[from];
                let n = es.len();
                let mut i: usize = 0;
                let mut found: bool = false;
                while i < n && !found
                    invariant
                        n == es@.len(),
                        i <= n,
                        segs.len() > 0,
                        key@ == segs[0],
                        mv == Doc::Mapping(*(&es))@->Mapping_0,
                        mv.len() == n,
                        !found ==> forall|j: int| 0 <= j < i ==> (#[trigger] mv[j]).0 != segs[0],
                        found ==> 0 < i <= n && mv[i - 1].0 == segs[0] && (forall|j: int|
                            0 <= j < i - 1 ==> (#[trigger] mv[j]).0 != segs[0]),
                    decreases n - i,
                {
                    if es[i].0 == *key {
                        found = true;
                        proof {
                            assert(mv[i as int].0 == es@[i as int].0@);
                        }
                    } else {
                        proof {
                            assert(mv[i as int].0 == es@[i as int].0@);
                        }
                    }
                    i += 1;
                }
                if found {
                    let pos = i - 1;
                    proof {
                        lemma_entries_put_skip(mv, segs[0], v@, pos as int);
                        assert(mv.skip(pos as int)[0] == mv[pos as int]);
                    }
                    if from + 1 == plen {
                        proof {
                            let put = entries_put(mv, segs[0], v@);
                            assert(entries_put(mv.skip(pos as int), segs[0], v@) == seq![
                                (segs[0], v@),
                            ] + mv.skip(pos as int).drop_first());
                            assert(mv.skip(pos as int).drop_first() =~= mv.skip(pos as int + 1));
                        }
                        es.set(pos, (key.clone(), v));
                        let r = Doc::Mapping(es);
                        proof {
                            assert(r@->Mapping_0 =~= entries_put(mv, segs[0], v@));
                            assert(doc_set_v(Doc::Mapping(*(&es))@, segs, v@) matches Some(d)
                                ==> true);
                        }
                        return (r, true);
                    } else {
                        proof {
                            lemma_entries_get_skip(mv, segs[0], pos as int);
                        }
                        let (k0, child) = es.remove(pos);
                        proof {
                            assert(child@ == mv[pos as int].1);
                            assert(entries_get(mv, segs[0]) == Some(child@));
                        }
                        let (child2, ok) = child.set_path(path, from + 1, v);
                        es.insert(pos, (k0, child2));
                        let r = Doc::Mapping(es);
                        proof {
                            lemma_entries_put_skip(mv, segs[0], child2@, pos as int);
                            let put = entries_put(mv, segs[0], child2@);
                            assert(entries_put(mv.skip(pos as int), segs[0], child2@) == seq![
                                (segs[0], child2@),
                            ] + mv.skip(pos as int).drop_first());
                            assert(mv.skip(pos as int).drop_first() =~= mv.skip(pos as int + 1));
                            if ok {
                                assert(r@->Mapping_0 =~= entries_put(mv, segs[0], child2@));
                            } else {
                                assert(r@->Mapping_0 =~= mv);
                                assert(r@ =~= Doc::Mapping(*(&es))@);
                            }
                        }
                        return (r, ok);
                    }
                } else {
                    proof {
                        lemma_entries_put_skip(mv, segs[0], v@, n as int);
                        assert(mv.skip(n as int) =~= Seq::<(Seq<char>, DocView)>::empty());
                        lemma_entries_get_skip(mv, segs[0], n as int);
                    }
                    if from + 1 == plen {
                        es.push((key.clone(), v));
                        let r = Doc::Mapping(es);
                        proof {
                            assert(r@->Mapping_0 =~= entries_put(mv, segs[0], v@));
                        }
                        return (r, true);
                    } else {
                        let child = Doc::Mapping(Vec::new());
                        proof {
                            assert(child@->Mapping_0 =~= Seq::<(Seq<char>, DocView)>::empty());
                            assert(child@ == DocView::Mapping(Seq::<(Seq<char>, DocView)>::empty()));
                        }
                        let (child2, ok) = child.set_path(path, from + 1, v);
                        if ok {
                            es.push((key.clone(), child2));
                            let r = Doc::Mapping(es);
                            proof {
                                lemma_entries_put_skip(mv, segs[0], child2@, n as int);
                                assert(r@->Mapping_0 =~= entries_put(mv, segs[0], child2@));
                            }
                            return (r, true);
                        } else {
                            let r = Doc::Mapping(es);
                            proof {
                                assert(r@->Mapping_0 =~= mv);
                            }
                            return (r, false);
                        }
                    }
                }
            },
        }
    }

    /// Removes the entry at `path[from..]`; a missing entry is kept silently.
    /// On failure the document comes back unchanged.
    pub fn remove_path(self, path: &Vec<String>, from: usize) -> (r: (Doc, bool))
        requires
            from <= path@.len(),
        ensures
            match doc_remove_v(self@, strings_view(path@).skip(from as int)) {
                Some(d) => r.1 && r.0@ == d,
                None => !r.1 && r.0@ == self@,
            },
        decreases path@.len() - from,
    {
        let ghost segs = strings_view(path@).skip(from as int);
        let plen = path.len();
        if from == plen {
            proof {
                assert(segs.len() == 0);
            }
            return (self, false);
        }
        proof {
            assert(segs[0] == path@[from as int]@);
            assert(segs.drop_first() =~= strings_view(path@).skip(from as int + 1));
        }
        match self {
            Doc::Str(s) => (Doc::Str(s), false),
            Doc::List(l) => (Doc::List(l), false),
            Doc::Mapping(mut es) => {
                let ghost mv = Doc::Mapping(es)@->Mapping_0;
                let key = &path[from];
                let n = es.len();
                let mut i: usize = 0;
                let mut found: bool = false;
                while i < n && !found
                    invariant
                        n == es@.len(),
                        i <= n,
                        segs.len() > 0,
                        key@ == segs[0],
                        mv == Doc::Mapping(*(&es))@->Mapping_0,
                        mv.len() == n,
                        !found ==> forall|j: int| 0 <= j < i ==> (#[trigger] mv[j]).0 != segs[0],
                        found ==> 0 < i <= n && mv[i - 1].0 == segs[0] && (forall|j: int|
                            0 <= j < i - 1 ==> (#[trigger] mv[j]).0 != segs[0]),
                    decreases n - i,
                {
                    if es[i].0 == *key {
                        found = true;
                        proof {
                            assert(mv[i as int].0 == es@[i as int].0@);
                        }
                    } else {
                        proof {
                            assert(mv[i as int].0 == es@[i as int].0@);
                        }
                    }
                    i += 1;
                }
                if found {
                    let pos = i - 1;
                    proof {
                        assert(mv.skip(pos as int)[0] == mv[pos as int]);
                    }
                    if from + 1 == plen {
                        proof {
                            lemma_entries_remove_skip(mv, segs[0], pos as int);
                            assert(entries_remove(mv.skip(pos as int), segs[0]) == mv.skip(
                                pos as int,
                            ).drop_first());
                            assert(mv.skip(pos as int).drop_first() =~= mv.skip(pos as int + 1));
                        }
                        let _ = es.remove(pos);
                        let r = Doc::Mapping(es);
                        proof {
                            assert(r@->Mapping_0 =~= entries_remove(mv, segs[0]));
                        }
                        return (r, true);
                    } else {
                        proof {
                            lemma_entries_get_skip(mv, segs[0], pos as int);
                            lemma_entries_put_skip(mv, segs[0], arbitrary(), pos as int);
                        }
                        let (k0, child) = es.remove(pos);
                        proof {
                            assert(child@ == mv[pos as int].1);
                            assert(entries_get(mv, segs[0]) == Some(child@));
                        }
                        let (child2, ok) = child.remove_path(path, from + 1);
                        es.insert(pos, (k0, child2));
                        let r = Doc::Mapping(es);
                        proof {
                            lemma_entries_put_skip(mv, segs[0], child2@, pos as int);
                            assert(entries_put(mv.skip(pos as int), segs[0], child2@) == seq![
                                (segs[0], child2@),
                            ] + mv.skip(pos as int).drop_first());
                            assert(mv.skip(pos as int).drop_first() =~= mv.skip(pos as int + 1));
                            if ok {
                                assert(r@->Mapping_0 =~= entries_put(mv, segs[0], child2@));
                            } else {
                                assert(r@->Mapping_0 =~= mv);
                                assert(r@ =~= Doc::Mapping(*(&es))@);
                            }
                        }
                        return (r, ok);
                    }
                } else {
                    proof {
                        lemma_entries_get_skip(mv, segs[0], n as int);
                        lemma_entries_remove_skip(mv, segs[0], n as int);
                        assert(mv.skip(n as int) =~= Seq::<(Seq<char>, DocView)>::empty());
                    }
                    let r = Doc::Mapping(es);
                    proof {
                        if segs.len() == 1 {
                            assert(r@->Mapping_0 =~= entries_remove(mv, segs[0]));
                        } else {
                            assert(r@->Mapping_0 =~= mv);
                        }
                    }
                    return (r, true);
                }
            },
        }
    }
}

/// The view of a mapping's entry list.
pub open spec fn mapping_view(es: Seq<(String, Doc)>) -> Seq<(Seq<char>, DocView)> {
    es.map_values(|p: (String, Doc)| (p.0@, p.1@))
}

/// Looks a key up in a mapping's entry list (first match).
pub fn map_lookup<'a>(es: &'a Vec<(String, Doc)>, key: &String) -> (r: Option<&'a Doc>)
    ensures
        match r {
            Some(d) => entries_get(mapping_view(es@), key@) == Some(d@),
            None => entries_get(mapping_view(es@), key@) is None,
        },
{
    let n = es.len();
    let mut i: usize = 0;
    while i < n
        invariant
            n == es@.len(),
            i <= n,
            forall|j: int| 0 <= j < i ==> (#[trigger] mapping_view(es@)[j]).0 != key@,
        decreases n - i,
    {
        if es[i].0 == *key {
            proof {
                let mv = mapping_view(es@);
                lemma_entries_get_skip(mv, key@, i as int);
                assert(mv.skip(i as int)[0] == mv[i as int]);
                assert(mv[i as int] == (es@[i as int].0@, es@[i as int].1@));
            }
            return Some(&es[i].1);
        }
        proof {
            assert(mapping_view(es@)[i as int].0 == es@[i as int].0@);
        }
        i += 1;
    }
    proof {
        let mv = mapping_view(es@);
        lemma_entries_get_skip(mv, key@, n as int);
        assert(mv.skip(n as int) =~= Seq::<(Seq<char>, DocView)>::empty());
    }
    None
}

/// Splitting adds no dots back: a dot-free accumulator and remainder give
/// one single segment.
pub proof fn lemma_split_acc_no_dots(s: Seq<char>, cur: Seq<char>)
    requires
        forall|i: int| 0 <= i < s.len() ==> #[trigger] s[i] != '.',
        cur.len() + s.len() > 0,
    ensures
        split_acc(s, cur) == seq![cur + s],
    decreases s.len(),
{
    if s.len() == 0 {
        assert(cur + s =~= cur);
    } else {
        assert(forall|i: int|
            0 <= i < s.drop_first().len() ==> #[trigger] s.drop_first()[i] != '.');
        lemma_split_acc_no_dots(s.drop_first(), cur.push(s[0]));
        assert(cur.push(s[0]) + s.drop_first() =~= cur + s);
    }
}

/// A dot-free mask entry splits into itself as its only segment.
pub proof fn lemma_split_path_single(s: Seq<char>)
    requires
        s.len() > 0,
        forall|i: int| 0 <= i < s.len() ==> #[trigger] s[i] != '.',
    ensures
        split_path(s) == seq![s],
{
    lemma_split_acc_no_dots(s, Seq::<char>::empty());
    assert(Seq::<char>::empty() + s =~= s);
}

} // verus!
