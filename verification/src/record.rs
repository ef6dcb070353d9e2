//! Index records: one package version as a line of an index file.
//!
//! Every type comes with a mathematical model, reached with `@`, in which text
//! is a sequence of characters and a list is a sequence of models.

use vstd::prelude::*;
use crate::order::texts_of;

verus! {

/// What a dependency is needed for.
#[derive(Clone, Copy, Debug, PartialEq, Eq, Structural)]
pub enum DependencyKind {
    Normal,
    Build,
    Dev,
}

/// One dependency descriptor of an index record.
#[derive(Clone, Debug, PartialEq, Eq)]
pub struct Dependency {
    pub name: String,
    pub req: String,
    pub features: Vec<String>,
    pub optional: bool,
    pub default_features: bool,
    pub target: Option<String>,
    pub kind: Option<DependencyKind>,
    pub package: Option<String>,
}

/// A feature of a package and what it switches on.
#[derive(Clone, Debug, PartialEq, Eq)]
pub struct Feature {
    pub name: String,
    pub enables: Vec<String>,
}

/// One package version as the index stores it. Only `deps` and `links` are
/// ever interpreted; the other fields travel through unchanged.
#[derive(Clone, Debug, PartialEq, Eq)]
pub struct Crate {
    pub name: String,
    pub vers: String,
    pub deps: Vec<Dependency>,
    pub cksum: String,
    pub features: Vec<Feature>,
    pub features2: Option<Vec<Feature>>,
    pub yanked: Option<bool>,
    pub links: Option<String>,
    pub v: Option<u32>,
}

/// Model of a [`Dependency`].
pub struct DependencyModel {
    pub name: Seq<char>,
    pub req: Seq<char>,
    pub features: Seq<Seq<char>>,
    pub optional: bool,
    pub default_features: bool,
    pub target: Option<Seq<char>>,
    pub kind: Option<DependencyKind>,
    pub package: Option<Seq<char>>,
}

/// Model of a [`Feature`].
pub struct FeatureModel {
    pub name: Seq<char>,
    pub enables: Seq<Seq<char>>,
}

/// Model of a [`Crate`].
pub struct CrateModel {
    pub name: Seq<char>,
    pub vers: Seq<char>,
    pub deps: Seq<DependencyModel>,
    pub cksum: Seq<char>,
    pub features: Seq<FeatureModel>,
    pub features2: Option<Seq<FeatureModel>>,
    pub yanked: Option<bool>,
    pub links: Option<Seq<char>>,
    pub v: Option<u32>,
}

/// The characters of an optional text.
pub open spec fn text_of(o: Option<String>) -> Option<Seq<char>> {
    match o {
        Some(s) => Some(s@),
        None => None,
    }
}

/// The models of a list of dependencies.
pub open spec fn dependencies_of(v: Seq<Dependency>) -> Seq<DependencyModel> {
    Seq::new(v.len(), |i: int| v[i]@)
}

/// The models of a list of features.
pub open spec fn features_of(v: Seq<Feature>) -> Seq<FeatureModel> {
    Seq::new(v.len(), |i: int| v[i]@)
}

/// The models of a list of records.
pub open spec fn crates_of(v: Seq<Crate>) -> Seq<CrateModel> {
    Seq::new(v.len(), |i: int| v[i]@)
}

impl View for Dependency {
    type V = DependencyModel;

    open spec fn view(&self) -> DependencyModel {
        DependencyModel {
            name: self.name@,
            req: self.req@,
            features: texts_of(self.features@),
            optional: self.optional,
            default_features: self.default_features,
            target: text_of(self.target),
            kind: self.kind,
            package: text_of(self.package),
        }
    }
}

impl View for Feature {
    type V = FeatureModel;

    open spec fn view(&self) -> FeatureModel {
        FeatureModel { name: self.name@, enables: texts_of(self.enables@) }
    }
}

impl View for Crate {
    type V = CrateModel;

    open spec fn view(&self) -> CrateModel {
        CrateModel {
            name: self.name@,
            vers: self.vers@,
            deps: dependencies_of(self.deps@),
            cksum: self.cksum@,
            features: features_of(self.features@),
            features2: match self.features2 {
                Some(f) => Some(features_of(f@)),
                None => None,
            },
            yanked: self.yanked,
            links: text_of(self.links),
            v: self.v,
        }
    }
}

} // verus!
