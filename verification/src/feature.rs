//! The features that every format is read into and written from.
//!
//! The model is generic in what an ordinate is, as a geometry is, and in what a
//! property's value is: the text formats have JSON values, the binary formats
//! their own plain values.
use vstd::prelude::*;

use crate::crs::system::{crs_view, System};
use crate::crs::Crs;
use crate::format::Format;
use crate::geometry::rewrite::{keeps_length, replaced, rewritten};
use crate::geometry::{carries_m, positions, Geometry, Position, Shape};

verus! {

/// A feature: a geometry, if it has one, and properties in order.
#[derive(Debug, PartialEq)]
pub struct Feature<N, P> {
    pub geometry: Option<Geometry<N>>,
    pub properties: Vec<(String, P)>,
}

/// A collection of features.
#[derive(Debug, PartialEq)]
pub struct FeatureCollection<N, P> {
    pub features: Vec<Feature<N, P>>,
    /// The reference system of the geometries, where the source recorded one.
    pub crs: Option<Crs>,
}

/// The mathematical form of a feature.
pub struct Item<V, W> {
    pub geometry: Option<Shape<V>>,
    pub properties: Seq<(Seq<char>, W)>,
}

/// The mathematical form of a collection.
pub struct Items<V, W> {
    pub features: Seq<Item<V, W>>,
    pub crs: Option<System>,
}

/// The view of a list of properties.
pub open spec fn properties_view<P: View>(properties: Seq<(String, P)>) -> Seq<(Seq<char>, P::V)> {
    properties.map_values(|p: (String, P)| (p.0@, p.1@))
}

/// The view of an optional geometry.
pub open spec fn geometry_view<N: View>(g: Option<Geometry<N>>) -> Option<Shape<N::V>> {
    match g {
        Some(g) => Some(g@),
        None => None,
    }
}

impl<N: View, P: View> View for Feature<N, P> {
    type V = Item<N::V, P::V>;

    open spec fn view(&self) -> Item<N::V, P::V> {
        Item {
            geometry: geometry_view(self.geometry),
            properties: properties_view(self.properties@),
        }
    }
}

/// The view of a list of features.
pub open spec fn features_view<N: View, P: View>(features: Seq<Feature<N, P>>) -> Seq<
    Item<N::V, P::V>,
> {
    features.map_values(|f: Feature<N, P>| f@)
}

impl<N: View, P: View> View for FeatureCollection<N, P> {
    type V = Items<N::V, P::V>;

    open spec fn view(&self) -> Items<N::V, P::V> {
        Items { features: features_view(self.features@), crs: crs_view(self.crs) }
    }
}

/// Whether a feature's geometry carries a measure.
pub open spec fn feature_carries_m<V, W>(f: Item<V, W>) -> bool {
    f.geometry is Some && carries_m(positions(f.geometry->0))
}

/// Whether any feature's geometry carries a measure.
pub open spec fn any_carries_m<V, W>(features: Seq<Item<V, W>>) -> bool {
    exists|i: int| 0 <= i < features.len() && feature_carries_m(#[trigger] features[i])
}

/// What is lost of the measures in a format, where something is.
pub open spec fn m_warning<V, W>(c: Items<V, W>, target: Format) -> Option<Seq<char>> {
    if target.spec_supports_m() || !any_carries_m(c.features) {
        None
    } else {
        Some(
            "source geometry carries M (measure) values; "@ + target.spec_display_name()
                + " has no way to represent them — M will be dropped from the output."@,
        )
    }
}

impl<N: View, P: View> FeatureCollection<N, P> {
    /// A collection whose source recorded no reference system.
    pub fn new(features: Vec<Feature<N, P>>) -> (r: Self)
        ensures
            r.features == features,
            r.crs is None,
            r@ == (Items { features: features_view(features@), crs: None }),
    {
        FeatureCollection { features, crs: None }
    }

    /// Whether any feature's geometry carries a measure.
    pub fn has_m(&self) -> (r: bool)
        ensures
            r == any_carries_m(self@.features),
    {
        let mut i: usize = 0;
        while i < self.features.len()
            invariant
                i <= self.features@.len(),
                forall|j: int| 0 <= j < i ==> !feature_carries_m(#[trigger] self@.features[j]),
            decreases self.features@.len() - i,
        {
            assert(self@.features[i as int] == self.features@[i as int]@);
            if let Some(g) = &self.features[i].geometry {
                if g.has_m() {
                    assert(feature_carries_m(self@.features[i as int]));
                    return true;
                }
            }
            i += 1;
        }
        false
    }

    /// What is lost of the measures where the collection is written as `target`,
    /// or nothing where the format has a place for them or there are none.
    pub fn m_downgrade_warning(&self, target: Format) -> (r: Option<String>)
        ensures
            crate::text::opt_view(r) == m_warning(self@, target),
    {
        if target.supports_m() || !self.has_m() {
            return None;
        }
        let mut out = String::from_str("source geometry carries M (measure) values; ");
        out.append(target.display_name());
        out.append(" has no way to represent them — M will be dropped from the output.");
        Some(out)
    }
}

// --- rewriting positions -------------------------------------------------------------

/// Whether `b` is `a` with the positions of its geometry rewritten by `f`.
pub open spec fn feature_rewritten<N, P, F: Fn(&Position<N>) -> Position<N>>(
    f: F,
    a: Feature<N, P>,
    b: Feature<N, P>,
) -> bool {
    &&& a.properties == b.properties
    &&& match (a.geometry, b.geometry) {
        (Some(g), Some(h)) => rewritten(f, g, h),
        (None, None) => true,
        _ => false,
    }
}

/// Whether `b` is `a` with the runs of its geometry replaced by `f`.
pub open spec fn feature_replaced<N, P, F: Fn(&Vec<Position<N>>) -> Vec<Position<N>>>(
    f: F,
    a: Feature<N, P>,
    b: Feature<N, P>,
) -> bool {
    &&& a.properties == b.properties
    &&& match (a.geometry, b.geometry) {
        (Some(g), Some(h)) => replaced(f, g, h),
        (None, None) => true,
        _ => false,
    }
}

/// A feature with another geometry.
pub open spec fn with_geometry<N, P>(f: Feature<N, P>, g: Option<Geometry<N>>) -> Feature<N, P> {
    Feature { geometry: g, properties: f.properties }
}

impl<N, P> FeatureCollection<N, P> {
    /// Give each feature another geometry.
    fn set_geometries(&mut self, geometries: Vec<Option<Geometry<N>>>)
        requires
            geometries@.len() == old(self).features@.len(),
        ensures
            final(self).crs == old(self).crs,
            final(self).features@.len() == old(self).features@.len(),
            forall|i: int|
                0 <= i < old(self).features@.len() ==> #[trigger] final(self).features@[i]
                    == with_geometry(old(self).features@[i], geometries@[i]),
    {
        let ghost was = self.features@;
        let ghost all = geometries@;
        let ghost crs = self.crs;
        let mut geometries = geometries;
        while geometries.len() > 0
            invariant
                self.crs == crs,
                was.len() == all.len(),
                self.features@.len() == was.len(),
                geometries@.len() <= all.len(),
                geometries@ == all.take(geometries@.len() as int),
                forall|j: int|
                    0 <= j < geometries@.len() ==> #[trigger] self.features@[j] == was[j],
                forall|j: int|
                    geometries@.len() <= j < was.len() ==> #[trigger] self.features@[j]
                        == with_geometry(was[j], all[j]),
            decreases geometries@.len(),
        {
            let g = geometries.pop();
            let i: usize = geometries.len();
            if let Some(g) = g {
                assert(g == all[i as int]);
                self.features[i].geometry = g;
            }
            assert(geometries@ =~= all.take(geometries@.len() as int));
        }
    }

    /// Replace every position of every feature's geometry by what `f` gives for
    /// it. Properties and the reference system stay as they are.
    pub fn for_each_position_mut<F: Fn(&Position<N>) -> Position<N>>(&mut self, f: &F)
        requires
            forall|p: &Position<N>| #[trigger] call_requires(*f, (p,)),
        ensures
            final(self).crs == old(self).crs,
            final(self).features@.len() == old(self).features@.len(),
            forall|i: int|
                0 <= i < old(self).features@.len() ==> feature_rewritten(
                    *f,
                    old(self).features@[i],
                    #[trigger] final(self).features@[i],
                ),
    {
        let mut geometries: Vec<Option<Geometry<N>>> = Vec::new();
        let mut i: usize = 0;
        while i < self.features.len()
            invariant
                i <= self.features@.len(),
                geometries@.len() == i,
                forall|p: &Position<N>| #[trigger] call_requires(*f, (p,)),
                forall|j: int|
                    0 <= j < i ==> feature_rewritten(
                        *f,
                        self.features@[j],
                        with_geometry(self.features@[j], #[trigger] geometries@[j]),
                    ),
            decreases self.features@.len() - i,
        {
            geometries.push(
                match &self.features[i].geometry {
                    Some(g) => Some(g.map_positions(f)),
                    None => None,
                },
            );
            i += 1;
        }
        self.set_geometries(geometries);
    }
}

impl<N: Copy, P> FeatureCollection<N, P> {
    /// Replace every run of positions of every feature's geometry by what `f`
    /// gives for it, which has to be as long.
    pub fn for_each_position_run_mut<F: Fn(&Vec<Position<N>>) -> Vec<Position<N>>>(&mut self, f: &F)
        requires
            forall|p: &Vec<Position<N>>| #[trigger] call_requires(*f, (p,)),
            keeps_length(*f),
        ensures
            final(self).crs == old(self).crs,
            final(self).features@.len() == old(self).features@.len(),
            forall|i: int|
                0 <= i < old(self).features@.len() ==> feature_replaced(
                    *f,
                    old(self).features@[i],
                    #[trigger] final(self).features@[i],
                ),
    {
        let mut geometries: Vec<Option<Geometry<N>>> = Vec::new();
        let mut i: usize = 0;
        while i < self.features.len()
            invariant
                i <= self.features@.len(),
                geometries@.len() == i,
                keeps_length(*f),
                forall|p: &Vec<Position<N>>| #[trigger] call_requires(*f, (p,)),
                forall|j: int|
                    0 <= j < i ==> feature_replaced(
                        *f,
                        self.features@[j],
                        with_geometry(self.features@[j], #[trigger] geometries@[j]),
                    ),
            decreases self.features@.len() - i,
        {
            geometries.push(
                match &self.features[i].geometry {
                    Some(g) => Some(g.map_runs(f)),
                    None => None,
                },
            );
            i += 1;
        }
        self.set_geometries(geometries);
    }
}

} // verus!
