//! The shapes of package names that the registries expect.
use vstd::prelude::*;
use vstd::string::StringExecFns;
use vstd::string::StrSliceExecFns;
use crate::ecosystem::FetchError;
use crate::ordering::views;

verus! {

/// Scans `s` left to right: the `/`-separated pieces closed so far, and the
/// piece still open at the end.
pub open spec fn segment_state(s: Seq<char>) -> (Seq<Seq<char>>, Seq<char>)
    decreases s.len(),
{
    if s.len() == 0 {
        (seq![], seq![])
    } else {
        let (done, cur) = segment_state(s.drop_last());
        if s.last() == '/' {
            (done.push(cur), seq![])
        } else {
            (done, cur.push(s.last()))
        }
    }
}

/// The pieces of `s` between `/` characters, empty ones included.
pub open spec fn segments(s: Seq<char>) -> Seq<Seq<char>> {
    segment_state(s).0.push(segment_state(s).1)
}

/// Cuts `s` at every `/`.
pub fn split_segments(s: &str) -> (r: Vec<String>)
    ensures
        views(r@) == segments(s@),
{
    let n = s.unicode_len();
    let mut out: Vec<String> = Vec::new();
    let mut start: usize = 0;
    let mut i: usize = 0;
    while i < n
        invariant
            n == s@.len(),
            start <= i <= n,
            views(out@) == segment_state(s@.take(i as int)).0,
            s@.subrange(start as int, i as int) == segment_state(s@.take(i as int)).1,
        decreases n - i,
    {
        let c = s.get_char(i);
        assert(s@.take(i + 1).drop_last() =~= s@.take(i as int));
        if c == '/' {
            let piece = String::from_str(s.substring_char(start, i));
            let ghost old_out = out@;
            out.push(piece);
            assert(views(out@) =~= views(old_out).push(piece@));
            start = i + 1;
            assert(s@.subrange(start as int, i + 1) =~= Seq::<char>::empty());
        } else {
            assert(s@.subrange(start as int, i + 1) =~= s@.subrange(start as int, i as int).push(c));
        }
        i = i + 1;
    }
    assert(s@.take(n as int) =~= s@);
    let piece = String::from_str(s.substring_char(start, n));
    let ghost old_out = out@;
    out.push(piece);
    assert(views(out@) =~= views(old_out).push(piece@));
    out
}

/// What an infrastructure-module name asks for.
#[derive(Debug)]
pub enum InfraTarget {
    /// `namespace/name`: the versions of a provider.
    Provider { namespace: String, name: String },
    /// `namespace/name/provider`: the versions of a module.
    Module { namespace: String, name: String, provider: String },
}

/// Two segments name a provider, three a module; any other count is an
/// `InvalidIdentifier` error.
pub fn parse_infra_identifier(package: &str) -> (r: Result<InfraTarget, FetchError>)
    ensures
        segments(package@).len() == 2 ==> (r matches Ok(InfraTarget::Provider { namespace, name })
            && namespace@ == segments(package@)[0] && name@ == segments(package@)[1]),
        segments(package@).len() == 3 ==> (r matches Ok(
            InfraTarget::Module { namespace, name, provider },
        ) && namespace@ == segments(package@)[0] && name@ == segments(package@)[1] && provider@
            == segments(package@)[2]),
        segments(package@).len() != 2 && segments(package@).len() != 3 ==> (r matches Err(
            FetchError::InvalidIdentifier(n),
        ) && n@ == package@),
{
    let parts = split_segments(package);
    assert(parts@.len() == views(parts@).len());
    if parts.len() == 2 {
        Ok(InfraTarget::Provider { namespace: parts[0].clone(), name: parts[1].clone() })
    } else if parts.len() == 3 {
        Ok(
            InfraTarget::Module {
                namespace: parts[0].clone(),
                name: parts[1].clone(),
                provider: parts[2].clone(),
            },
        )
    } else {
        Err(FetchError::InvalidIdentifier(String::from_str(package)))
    }
}

/// A chart name is `repository/chart`: exactly two segments, else an
/// `InvalidIdentifier` error.
pub fn parse_chart_identifier(package: &str) -> (r: Result<(String, String), FetchError>)
    ensures
        segments(package@).len() == 2 ==> (r matches Ok((repo, chart)) && repo@ == segments(
            package@,
        )[0] && chart@ == segments(package@)[1]),
        segments(package@).len() != 2 ==> (r matches Err(FetchError::InvalidIdentifier(n)) && n@
            == package@),
{
    let parts = split_segments(package);
    assert(parts@.len() == views(parts@).len());
    if parts.len() == 2 {
        Ok((parts[0].clone(), parts[1].clone()))
    } else {
        Err(FetchError::InvalidIdentifier(String::from_str(package)))
    }
}

/// Namespace and repository of a container image: a name without `/` lies in
/// the `library` namespace; otherwise the name is cut at its first `/`.
pub fn qualify_image_name(image: &str) -> (r: (String, String))
    ensures
        (forall|i: int| 0 <= i < image@.len() ==> image@[i] != '/') ==> (r.0@ == "library"@
            && r.1@ == image@),
        (exists|i: int| 0 <= i < image@.len() && image@[i] == '/') ==> (exists|i: int|
            0 <= i < image@.len() && image@[i] == '/' && (forall|j: int|
                0 <= j < i ==> image@[j] != '/') && r.0@ == image@.take(i) && r.1@ == image@.skip(
                i + 1,
            )),
{
    let n = image.unicode_len();
    let mut i: usize = 0;
    while i < n
        invariant
            n == image@.len(),
            i <= n,
            forall|j: int| 0 <= j < i ==> image@[j] != '/',
        decreases n - i,
    {
        if image.get_char(i) == '/' {
            let namespace = String::from_str(image.substring_char(0, i));
            let repo = String::from_str(image.substring_char(i + 1, n));
            assert(image@.subrange(0, i as int) =~= image@.take(i as int));
            assert(image@.subrange(i + 1, n as int) =~= image@.skip(i + 1));
            return (namespace, repo);
        }
        i = i + 1;
    }
    (String::from_str("library"), String::from_str(image))
}

} // verus!
