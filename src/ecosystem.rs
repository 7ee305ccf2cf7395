//! The closed set of supported registries, the failures of a lookup, and the
//! decisions that do not depend on a registry's response body.
use vstd::prelude::*;
use vstd::string::StringExecFns;
use vstd::string::StrSliceExecFns;
use crate::ordering::views;

verus! {

/// A package registry.
#[derive(Debug, Clone, Copy, PartialEq, Eq, Structural)]
pub enum Ecosystem {
    Crate,
    Container,
    Chart,
    InfraModule,
    JsPackage,
}

/// Why a lookup failed.
#[derive(Debug)]
pub enum FetchError {
    /// The registry reports that the package does not exist; holds the name asked for.
    NotFound(String),
    /// The package name does not have the shape the registry expects; holds the name.
    InvalidIdentifier(String),
    /// The registry literal is not one of the supported ones.
    UnsupportedEcosystem { value: String, supported: Vec<String> },
    /// Transport failure, an unexpected status, or a body of the wrong shape.
    UpstreamError(String),
}

pub open spec fn is_invalid_input(e: FetchError) -> bool {
    e is InvalidIdentifier || e is UnsupportedEcosystem
}

impl FetchError {
    /// Whether the failure lies in the caller's input rather than upstream.
    pub fn is_invalid_input(&self) -> (r: bool)
        ensures
            r == is_invalid_input(*self),
    {
        match self {
            FetchError::InvalidIdentifier(_) => true,
            FetchError::UnsupportedEcosystem { .. } => true,
            _ => false,
        }
    }
}

/// The literal that names each registry.
pub open spec fn literal_of(e: Ecosystem) -> Seq<char> {
    match e {
        Ecosystem::Crate => "cargo"@,
        Ecosystem::Container => "docker"@,
        Ecosystem::Chart => "helm"@,
        Ecosystem::InfraModule => "terraform"@,
        Ecosystem::JsPackage => "npm"@,
    }
}

/// The literals of the supported registries, in a fixed order.
pub open spec fn supported_views() -> Seq<Seq<char>> {
    seq![
        literal_of(Ecosystem::Crate),
        literal_of(Ecosystem::Container),
        literal_of(Ecosystem::Chart),
        literal_of(Ecosystem::InfraModule),
        literal_of(Ecosystem::JsPackage),
    ]
}

/// The registry that a literal names, if any.
pub open spec fn ecosystem_of(s: Seq<char>) -> Option<Ecosystem> {
    if s == "cargo"@ {
        Some(Ecosystem::Crate)
    } else if s == "docker"@ {
        Some(Ecosystem::Container)
    } else if s == "helm"@ {
        Some(Ecosystem::Chart)
    } else if s == "terraform"@ {
        Some(Ecosystem::InfraModule)
    } else if s == "npm"@ {
        Some(Ecosystem::JsPackage)
    } else {
        None
    }
}

/// Character-wise equality of two texts.
pub fn text_equals(a: &str, b: &str) -> (r: bool)
    ensures
        r == (a@ == b@),
{
    let n = a.unicode_len();
    if n != b.unicode_len() {
        return false;
    }
    let mut i: usize = 0;
    while i < n
        invariant
            n == a@.len(),
            n == b@.len(),
            i <= n,
            a@.take(i as int) == b@.take(i as int),
        decreases n - i,
    {
        if a.get_char(i) != b.get_char(i) {
            return false;
        }
        assert(a@.take(i + 1) =~= a@.take(i as int).push(a@[i as int]));
        assert(b@.take(i + 1) =~= b@.take(i as int).push(b@[i as int]));
        i = i + 1;
    }
    assert(a@.take(n as int) =~= a@);
    assert(b@.take(n as int) =~= b@);
    true
}

impl Ecosystem {
    /// The literals of all supported registries, in a fixed order.
    pub fn supported_literals() -> (r: Vec<String>)
        ensures
            views(r@) == supported_views(),
    {
        let mut r: Vec<String> = Vec::new();
        r.push(String::from_str("cargo"));
        r.push(String::from_str("docker"));
        r.push(String::from_str("helm"));
        r.push(String::from_str("terraform"));
        r.push(String::from_str("npm"));
        assert(views(r@) =~= supported_views());
        r
    }

    /// Selects the registry that `literal` names; any other literal is an
    /// `UnsupportedEcosystem` error that carries it and the supported ones.
    pub fn from_literal(literal: &str) -> (r: Result<Ecosystem, FetchError>)
        ensures
            ecosystem_of(literal@) is Some ==> r == Ok::<Ecosystem, FetchError>(
                ecosystem_of(literal@)->Some_0,
            ),
            ecosystem_of(literal@) is None ==> (r matches Err(
                FetchError::UnsupportedEcosystem { value, supported },
            ) && value@ == literal@ && views(supported@) == supported_views()),
    {
        if text_equals(literal, "cargo") {
            Ok(Ecosystem::Crate)
        } else if text_equals(literal, "docker") {
            Ok(Ecosystem::Container)
        } else if text_equals(literal, "helm") {
            Ok(Ecosystem::Chart)
        } else if text_equals(literal, "terraform") {
            Ok(Ecosystem::InfraModule)
        } else if text_equals(literal, "npm") {
            Ok(Ecosystem::JsPackage)
        } else {
            Err(
                FetchError::UnsupportedEcosystem {
                    value: String::from_str(literal),
                    supported: Ecosystem::supported_literals(),
                },
            )
        }
    }

    /// The literal that names this registry.
    pub fn literal(&self) -> (r: &'static str)
        ensures
            r@ == literal_of(*self),
    {
        match self {
            Ecosystem::Crate => "cargo",
            Ecosystem::Container => "docker",
            Ecosystem::Chart => "helm",
            Ecosystem::InfraModule => "terraform",
            Ecosystem::JsPackage => "npm",
        }
    }
}

/// Literal and registry name each other.
pub proof fn lemma_literal_round_trip(e: Ecosystem)
    ensures
        ecosystem_of(literal_of(e)) == Some(e),
{
    reveal_strlit("cargo");
    reveal_strlit("docker");
    reveal_strlit("helm");
    reveal_strlit("terraform");
    reveal_strlit("npm");
    assert("docker"@[0] != "cargo"@[0]);
    assert("helm"@[0] != "cargo"@[0] && "helm"@[0] != "docker"@[0]);
    assert("terraform"@[0] != "cargo"@[0] && "terraform"@[0] != "docker"@[0]
        && "terraform"@[0] != "helm"@[0]);
    assert("npm"@[0] != "cargo"@[0] && "npm"@[0] != "docker"@[0] && "npm"@[0] != "helm"@[0]
        && "npm"@[0] != "terraform"@[0]);
}

/// What an HTTP status means for a lookup of `package`: success for 2xx,
/// `NotFound` for 404, and `UpstreamError` for any other status.
pub fn check_status(status: u16, package: &str) -> (r: Result<(), FetchError>)
    ensures
        200 <= status <= 299 ==> r is Ok,
        status == 404 ==> (r matches Err(FetchError::NotFound(name)) && name@ == package@),
        !(200 <= status <= 299) && status != 404 ==> r matches Err(FetchError::UpstreamError(_)),
{
    if 200 <= status && status <= 299 {
        Ok(())
    } else if status == 404 {
        Err(FetchError::NotFound(String::from_str(package)))
    } else {
        Err(FetchError::UpstreamError(String::from_str("unexpected status from the registry")))
    }
}

} // verus!
