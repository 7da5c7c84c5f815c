//! One measured candidate representation of one region of a model.
use crate::map::{in_region, Exception};
use crate::policy::Role;
use crate::quality::QualityEvidence;
use crate::text::same;
use vstd::prelude::*;
use vstd::string::*;

verus! {

/// A role, or a projection or range of layers of it.
#[derive(Debug, PartialEq, Eq)]
pub struct RoleScope {
    pub role: Role,
    pub projection: Option<String>,
    pub layers: Option<(u32, u32)>,
}

/// The text of an optional name.
pub open spec fn named(s: Option<String>) -> Option<Seq<char>> {
    match s {
        Some(x) => Some(x@),
        None => None,
    }
}

/// Whether two optional names agree.
pub fn same_option(a: &Option<String>, b: &Option<String>) -> (r: bool)
    ensures
        r == (named(*a) == named(*b)),
{
    match (a, b) {
        (Some(x), Some(y)) => same(x.as_str(), y.as_str()),
        (None, None) => true,
        _ => false,
    }
}

/// A copy of an optional name.
pub fn copy_option(a: &Option<String>) -> (r: Option<String>)
    ensures
        r == *a,
{
    match a {
        Some(x) => Some(x.clone()),
        None => None,
    }
}

impl Clone for RoleScope {
    fn clone(&self) -> (r: Self)
        ensures
            r == *self,
    {
        RoleScope {
            role: self.role,
            projection: copy_option(&self.projection),
            layers: self.layers,
        }
    }
}

impl RoleScope {
    /// The two scopes are one region.
    pub open spec fn coincides(&self, other: &RoleScope) -> bool {
        &&& self.role == other.role
        &&& named(self.projection) == named(other.projection)
        &&& self.layers == other.layers
    }

    /// A tensor of the role is in the region.
    pub open spec fn holds(&self, tensor: Seq<char>) -> bool {
        in_region(named(self.projection), self.layers, tensor)
    }

    /// The whole of a role.
    pub fn role(role: Role) -> (r: RoleScope)
        ensures
            r.role == role,
            r.projection is None,
            r.layers is None,
    {
        RoleScope { role, projection: None, layers: None }
    }

    /// Only this projection.
    pub fn projection(self, name: &str) -> (r: RoleScope)
        ensures
            r.role == self.role,
            named(r.projection) == Some(name@),
            r.layers == self.layers,
    {
        RoleScope { role: self.role, projection: Some(name.to_owned()), layers: self.layers }
    }

    /// Only these layers, both ends included.
    pub fn layers(self, from: u32, to: u32) -> (r: RoleScope)
        ensures
            r.role == self.role,
            r.projection == self.projection,
            r.layers == Some((from, to)),
    {
        RoleScope { role: self.role, projection: self.projection, layers: Some((from, to)) }
    }

    /// Whether the two scopes are one region.
    pub fn same_scope(&self, other: &RoleScope) -> (r: bool)
        ensures
            r == self.coincides(other),
    {
        let layers: bool = match (self.layers, other.layers) {
            (Some(a), Some(b)) => a.0 == b.0 && a.1 == b.1,
            (None, None) => true,
            _ => false,
        };
        self.role == other.role && same_option(&self.projection, &other.projection) && layers
    }

    /// The precision-map exception that compiles this region to `target`.
    pub fn as_exception(&self, target: &str) -> (r: Exception)
        ensures
            r.role == Some(self.role),
            r.projection == self.projection,
            r.layers == self.layers,
            r.decision() == Some(target@),
    {
        Exception {
            role: Some(self.role),
            projection: copy_option(&self.projection),
            layers: self.layers,
            encoding: Some(target.to_owned()),
        }
    }
}

/// How far a representation has come.
#[derive(Debug, Clone, Copy, PartialEq, Eq, Structural)]
pub struct RepresentationStatus {
    pub represented: bool,
    pub available: bool,
    pub backend_supported: bool,
    pub runnable: bool,
    pub measured: bool,
    pub selected: bool,
}

impl Default for RepresentationStatus {
    fn default() -> (r: Self)
        ensures
            r == (RepresentationStatus {
                represented: false,
                available: false,
                backend_supported: false,
                runnable: false,
                measured: false,
                selected: false,
            }),
    {
        RepresentationStatus {
            represented: false,
            available: false,
            backend_supported: false,
            runnable: false,
            measured: false,
            selected: false,
        }
    }
}

impl RepresentationStatus {
    /// Represented, available, runnable and measured.
    pub fn ladder_complete(&self) -> (r: bool)
        ensures
            r == (self.represented && self.available && self.runnable && self.measured),
    {
        self.represented && self.available && self.runnable && self.measured
    }
}

/// What produced a record.
#[derive(Debug, Clone, PartialEq, Eq)]
pub struct ExperimentProvenance {
    pub gate: String,
    pub fixture: String,
    /// The format's own kernel ran, not a decoded stand-in.
    pub native_kernel: bool,
    pub caveats: Vec<String>,
}

/// One measured candidate representation.
#[derive(Debug, Clone, PartialEq)]
pub struct RepresentationExperiment {
    pub model: String,
    pub scope: RoleScope,
    pub component: String,
    pub source: String,
    pub target: String,
    pub hardware: String,
    pub source_bytes: u64,
    pub target_bytes: u64,
    pub quality: Option<QualityEvidence>,
    pub status: RepresentationStatus,
    pub provenance: ExperimentProvenance,
}

impl RepresentationExperiment {
    /// Whether its throughput came from the format's own kernel.
    pub fn supports_throughput_claim(&self) -> (r: bool)
        ensures
            r == self.provenance.native_kernel,
    {
        self.provenance.native_kernel
    }
}

/// **Two scopes are one region where role, projection and layers are.**
pub proof fn law_when_scopes_coincide(a: RoleScope, b: RoleScope)
    ensures
        a.coincides(&b) ==> b.coincides(&a),
        a.role != b.role ==> !a.coincides(&b),
        a.layers != b.layers ==> !a.coincides(&b),
        a.projection is Some != b.projection is Some ==> !a.coincides(&b),
        a.projection is Some && b.projection is Some && (a.projection->0)@ != (b.projection->0)@
            ==> !a.coincides(&b),
        a.role == b.role && a.projection == b.projection && a.layers == b.layers ==> a.coincides(
            &b,
        ),
{
}

} // verus!
