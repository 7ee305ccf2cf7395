//! Normalisation of what each registry lists into plain version strings, and
//! the final step of a lookup.
use vstd::prelude::*;
use crate::ecosystem::FetchError;
use core::cmp::Ordering;
use crate::ordering::{DEFAULT_LIMIT, newest_first, order_versions, views};
use crate::version::{chars_of, compare_chars, compare_text};

verus! {

/// One published release of a crate, as the crate registry lists it.
#[derive(Debug)]
pub struct CrateRelease {
    pub num: String,
    pub yanked: bool,
}

/// The version labels of the releases that are not yanked, in listed order.
pub open spec fn published(s: Seq<CrateRelease>) -> Seq<Seq<char>>
    decreases s.len(),
{
    if s.len() == 0 {
        seq![]
    } else if s.last().yanked {
        published(s.drop_last())
    } else {
        published(s.drop_last()).push(s.last().num@)
    }
}

pub open spec fn reversed(s: Seq<Seq<char>>) -> Seq<Seq<char>> {
    Seq::new(s.len(), |i: int| s[s.len() - 1 - i])
}

/// The version lists of several modules, one after another.
pub open spec fn flatten_views(m: Seq<Vec<String>>) -> Seq<Seq<char>>
    decreases m.len(),
{
    if m.len() == 0 {
        seq![]
    } else {
        flatten_views(m.drop_last()) + views(m.last()@)
    }
}

/// Keeps the version labels of the releases that are not yanked.
pub fn unyanked_versions(releases: &Vec<CrateRelease>) -> (r: Vec<String>)
    ensures
        views(r@) == published(releases@),
{
    let mut out: Vec<String> = Vec::new();
    let mut i: usize = 0;
    while i < releases.len()
        invariant
            i <= releases@.len(),
            views(out@) == published(releases@.take(i as int)),
        decreases releases@.len() - i,
    {
        let ghost old_out = out@;
        assert(releases@.take(i + 1).drop_last() =~= releases@.take(i as int));
        assert(releases@.take(i + 1).last() == releases@[i as int]);
        if !releases[i].yanked {
            out.push(releases[i].num.clone());
            assert(views(out@) =~= views(old_out).push(releases@[i as int].num@));
        }
        i = i + 1;
    }
    assert(releases@.take(i as int) =~= releases@);
    out
}

/// The same versions in the opposite order.
pub fn provider_versions(listed: &Vec<String>) -> (r: Vec<String>)
    ensures
        views(r@) == reversed(views(listed@)),
{
    let n = listed.len();
    let mut out: Vec<String> = Vec::new();
    let mut i: usize = 0;
    while i < n
        invariant
            n == listed@.len(),
            i <= n,
            out@.len() == i,
            forall|j: int| 0 <= j < i ==> (#[trigger] out@[j])@ == listed@[n - 1 - j]@,
        decreases n - i,
    {
        out.push(listed[n - 1 - i].clone());
        i = i + 1;
    }
    assert(views(out@) =~= reversed(views(listed@)));
    out
}

/// The versions of all listed modules, one module after another, in the
/// opposite order.
pub fn module_versions(modules: &Vec<Vec<String>>) -> (r: Vec<String>)
    ensures
        views(r@) == reversed(flatten_views(modules@)),
{
    let mut all: Vec<String> = Vec::new();
    let mut i: usize = 0;
    while i < modules.len()
        invariant
            i <= modules@.len(),
            views(all@) == flatten_views(modules@.take(i as int)),
        decreases modules@.len() - i,
    {
        assert(modules@.take(i + 1).drop_last() =~= modules@.take(i as int));
        assert(modules@.take(i + 1).last() == modules@[i as int]);
        let module = &modules[i];
        let mut j: usize = 0;
        let ghost before = views(all@);
        while j < module.len()
            invariant
                j <= module@.len(),
                views(all@) == before + views(module@.take(j as int)),
            decreases module@.len() - j,
        {
            let ghost old_all = all@;
            all.push(module[j].clone());
            assert(views(all@) =~= views(old_all).push(module@[j as int]@));
            assert(views(module@.take(j + 1)) =~= views(module@.take(j as int)).push(
                module@[j as int]@,
            ));
            j = j + 1;
        }
        assert(module@.take(j as int) =~= module@);
        i = i + 1;
    }
    assert(modules@.take(i as int) =~= modules@);
    provider_versions(&all)
}


/// Puts `x` into a sequence ordered by descending code points, after every
/// element that is not below it.
pub open spec fn insert_text_desc(x: Seq<char>, t: Seq<Seq<char>>) -> Seq<Seq<char>>
    decreases t.len(),
{
    if t.len() == 0 {
        seq![x]
    } else if compare_text(t[0], x) == Ordering::Less {
        seq![x] + t
    } else {
        seq![t[0]] + insert_text_desc(x, t.drop_first())
    }
}

/// `s` ordered by descending code points, equal texts in their input order.
pub open spec fn sort_text_desc(s: Seq<Seq<char>>) -> Seq<Seq<char>>
    decreases s.len(),
{
    if s.len() == 0 {
        seq![]
    } else {
        insert_text_desc(s.last(), sort_text_desc(s.drop_last()))
    }
}

proof fn lemma_insert_text_at(x: Seq<char>, t: Seq<Seq<char>>, p: int)
    requires
        0 <= p <= t.len(),
        forall|q: int| 0 <= q < p ==> compare_text(#[trigger] t[q], x) != Ordering::Less,
        p < t.len() ==> compare_text(t[p], x) == Ordering::Less,
    ensures
        insert_text_desc(x, t) == t.insert(p, x),
    decreases t.len(),
{
    if t.len() == 0 {
        assert(t.insert(p, x) =~= seq![x]);
    } else if p == 0 {
        assert(t.insert(p, x) =~= seq![x] + t);
    } else {
        let r = t.drop_first();
        assert forall|q: int| 0 <= q < p - 1 implies compare_text(#[trigger] r[q], x)
            != Ordering::Less by {
            assert(r[q] == t[q + 1]);
        }
        lemma_insert_text_at(x, r, p - 1);
        assert(t.insert(p, x) =~= seq![t[0]] + r.insert(p - 1, x));
    }
}

/// Orders the version labels of a package listing by descending code points,
/// so that the listing's own order never shows through.
pub fn npm_versions(keys: &Vec<String>) -> (r: Vec<String>)
    ensures
        views(r@) == sort_text_desc(views(keys@)),
{
    let ghost input = views(keys@);
    let n = keys.len();
    let mut out: Vec<String> = Vec::new();
    let mut texts: Vec<Vec<char>> = Vec::new();
    let mut i: usize = 0;
    while i < n
        invariant
            n == keys@.len(),
            input == views(keys@),
            i <= n,
            views(out@) == sort_text_desc(input.take(i as int)),
            texts@.len() == out@.len(),
            forall|j: int| 0 <= j < texts@.len() ==> (#[trigger] texts@[j])@ == out@[j]@,
        decreases n - i,
    {
        let x = &keys[i];
        let cx = chars_of(x.as_str());
        let ghost t = views(out@);
        let mut p: usize = 0;
        while p < out.len() && !matches!(compare_chars(&texts[p], &cx), Ordering::Less)
            invariant
                p <= out@.len(),
                t == views(out@),
                texts@.len() == out@.len(),
                forall|j: int| 0 <= j < texts@.len() ==> (#[trigger] texts@[j])@ == out@[j]@,
                cx@ == x@,
                forall|q: int| 0 <= q < p ==> compare_text(#[trigger] t[q], x@) != Ordering::Less,
            decreases out@.len() - p,
        {
            assert(t[p as int] == out@[p as int]@);
            p = p + 1;
        }
        proof {
            if p < out@.len() {
                assert(t[p as int] == out@[p as int]@);
            }
            lemma_insert_text_at(x@, t, p as int);
            assert(input.take(i + 1).drop_last() =~= input.take(i as int));
            assert(input.take(i + 1).last() == x@);
        }
        texts.insert(p, cx);
        out.insert(p, x.clone());
        assert(views(out@) =~= t.insert(p as int, x@));
        i = i + 1;
    }
    assert(input.take(n as int) =~= input);
    out
}

/// The answer to a lookup: the fetched versions newest first, at most `limit`
/// of them (`DEFAULT_LIMIT` where none is named); a failed fetch passes through.
pub fn finish_lookup(fetched: Result<Vec<String>, FetchError>, limit: Option<usize>) -> (r: Result<
    Vec<String>,
    FetchError,
>)
    ensures
        fetched is Err ==> r == fetched,
        fetched is Ok ==> (r matches Ok(v) && views(v@) == newest_first(
            views(fetched->Ok_0@),
            (match limit {
                Some(l) => l,
                None => DEFAULT_LIMIT,
            }) as nat,
        )),
{
    match fetched {
        Ok(versions) => {
            let l = match limit {
                Some(l) => l,
                None => DEFAULT_LIMIT,
            };
            Ok(order_versions(&versions, l))
        },
        Err(e) => Err(e),
    }
}

} // verus!
