use vstd::prelude::*;

use crate::errors::{BVHCompactError, BVHLayoutType, MissingLayout};
use crate::layouts::wide;
use crate::layouts::verbose;
use crate::layouts::wald;
use crate::builder;

verus! {

/// Why a conversion between layouts was refused; nothing was changed.
#[derive(Clone, Copy, Debug, PartialEq, Eq, Structural)]
pub enum BVHConvertError {
    /// No conversion between these two layouts exists here.
    UnsupportedConversion(BVHLayoutType, BVHLayoutType),
    /// The source layout has not been produced yet.
    MissingLayout(BVHLayoutType),
}

/// The linked nodes `v` have the shape of the binary nodes `c`: the same
/// child links and primitive runs, whatever the boxes.
pub open spec fn linked_shape<B>(c: Seq<wald::Node<B>>, v: Seq<verbose::Node<B>>) -> bool {
    &&& v.len() == c.len()
    &&& forall|i: int|
        0 <= i < c.len() ==> {
            &&& (#[trigger] v[i]).tri_count == c[i].tri_count
            &&& (c[i].tri_count > 0 ==> v[i].first_tri == c[i].left_first)
            &&& (c[i].tri_count == 0 ==> v[i].left == c[i].left_first)
        }
}

/// The binary nodes `c` with the boxes of the linked nodes `v`.
pub open spec fn reboxed<B>(c: Seq<wald::Node<B>>, v: Seq<verbose::Node<B>>) -> Seq<wald::Node<B>> {
    Seq::new(
        c.len(),
        |i: int| wald::Node { bounds: v[i].bounds, left_first: c[i].left_first, tri_count: c[i].tri_count },
    )
}

/// Giving a compacted tree new boxes keeps its invariant and coverage.
proof fn lemma_reboxed<B>(b: Seq<wald::Node<B>>, indices: Seq<u32>, v: Seq<verbose::Node<B>>)
    requires
        wald::well_formed(b),
        wald::leaf_coverage(b, indices),
        v.len() == wald::compacted(b).len(),
    ensures
        wald::well_formed(reboxed(wald::compacted(b), v)),
        wald::leaf_coverage(reboxed(wald::compacted(b), v), indices),
        wald::compacted(reboxed(wald::compacted(b), v)) == reboxed(wald::compacted(b), v),
{
    let c = wald::compacted(b);
    let nb = reboxed(c, v);
    wald::lemma_compacted_well_formed(b);
    wald::lemma_compact_keeps_coverage(b, indices);
    assert(builder::grown_from(c, nb));
    builder::lemma_grown_keeps_reach(c, nb);
    assert forall|w1: int, w2: int, j: int|
        0 <= w1 < nb.len() && 0 <= w2 < nb.len() && wald::reachable(nb, w1) && wald::reachable(nb, w2)
            && #[trigger] wald::child_of(nb, w1, j) && #[trigger] wald::child_of(nb, w2, j) implies w1 == w2 by {
        assert(wald::child_of(c, w1, j) && wald::child_of(c, w2, j));
    }
    assert(wald::well_formed(nb));
    assert forall|s: int| 0 <= s < indices.len() implies #[trigger] wald::cover_count(nb, s, nb.len() as int) == 1 by {
        builder::lemma_cover_same_shape(c, nb, s, c.len() as int);
    }
    assert forall|s: int| 0 <= s < indices.len() implies #[trigger] wald::paths(nb, s, 0) == 1 by {
        builder::lemma_same_shape_paths(c, nb, s, 0);
    }
    assert(wald::leaves_in_range(nb, indices.len() as int));
    assert(wald::dense(nb));
    wald::lemma_dense_compacted(nb);
}

/// One tree held in every layout that has been produced for it so far.
pub struct Hierarchy<B> {
    wald: Option<wald::BVH<B>>,
    verbose: Option<verbose::BVH<B>>,
    wide4: Option<wide::BVH4<B>>,
    wide8: Option<wide::BVH8<B>>,
}

impl<B: Copy> Hierarchy<B> {
    pub closed spec fn binary(&self) -> Option<wald::BVH<B>> {
        self.wald
    }

    pub closed spec fn linked(&self) -> Option<verbose::BVH<B>> {
        self.verbose
    }

    pub closed spec fn four_wide(&self) -> Option<wide::BVH4<B>> {
        self.wide4
    }

    pub closed spec fn eight_wide(&self) -> Option<wide::BVH8<B>> {
        self.wide8
    }

    /// The layout has been produced and can be read.
    pub open spec fn has(&self, layout: BVHLayoutType) -> bool {
        match layout {
            BVHLayoutType::Wald32Byte => self.binary() is Some,
            BVHLayoutType::Verbose => self.linked() is Some,
            BVHLayoutType::BasicBVH4 => self.four_wide() is Some,
            BVHLayoutType::BasicBVH8 => self.eight_wide() is Some,
            _ => false,
        }
    }

    /// Every layout held keeps its invariant, and the wide layouts are the
    /// binary one, converted.
    pub open spec fn wf(&self) -> bool {
        &&& (self.binary() matches Some(b) ==> b.wf())
        &&& (self.linked() matches Some(v) ==> verbose::verbose_wf(v.nodes_view()))
        &&& (self.linked() matches Some(v) ==> self.binary() is Some && linked_shape(
            wald::compacted(self.binary()->0.nodes_view()),
            v.nodes_view(),
        ))
        &&& (self.four_wide() matches Some(w) ==> self.binary() is Some && wide::widened(
            wald::compacted(self.binary()->0.nodes_view()),
            w.nodes_view(),
        ))
        &&& (self.eight_wide() matches Some(w) ==> self.binary() is Some && wide::widened(
            wald::compacted(self.binary()->0.nodes_view()),
            w.nodes_view(),
        ))
    }

    /// Holds a built binary tree, in that layout alone.
    pub fn new(bvh: wald::BVH<B>) -> (r: Self)
        requires
            bvh.wf(),
        ensures
            r.wf(),
            r.binary() == Some(bvh),
            r.linked() is None,
            r.four_wide() is None,
            r.eight_wide() is None,
    {
        Hierarchy { wald: Some(bvh), verbose: None, wide4: None, wide8: None }
    }

    /// The binary layout, if it has been produced.
    pub fn binary_layout(&self) -> (r: Result<&wald::BVH<B>, MissingLayout>)
        ensures
            self.binary() matches Some(b) ==> r == Ok::<&wald::BVH<B>, MissingLayout>(&b),
            self.binary() is None ==> r == Err::<&wald::BVH<B>, MissingLayout>(MissingLayout(BVHLayoutType::Wald32Byte)),
    {
        match &self.wald {
            Some(b) => Ok(b),
            None => Err(MissingLayout::new(BVHLayoutType::Wald32Byte)),
        }
    }

    /// The linked layout, if it has been produced.
    pub fn verbose_layout(&self) -> (r: Result<&verbose::BVH<B>, MissingLayout>)
        ensures
            self.linked() matches Some(v) ==> r == Ok::<&verbose::BVH<B>, MissingLayout>(&v),
            self.linked() is None ==> r == Err::<&verbose::BVH<B>, MissingLayout>(MissingLayout(BVHLayoutType::Verbose)),
    {
        match &self.verbose {
            Some(v) => Ok(v),
            None => Err(MissingLayout::new(BVHLayoutType::Verbose)),
        }
    }

    /// The 4-wide layout, if it has been produced.
    pub fn bvh4_layout(&self) -> (r: Result<&wide::BVH4<B>, MissingLayout>)
        ensures
            self.four_wide() matches Some(w) ==> r == Ok::<&wide::BVH4<B>, MissingLayout>(&w),
            self.four_wide() is None ==> r == Err::<&wide::BVH4<B>, MissingLayout>(MissingLayout(BVHLayoutType::BasicBVH4)),
    {
        match &self.wide4 {
            Some(w) => Ok(w),
            None => Err(MissingLayout::new(BVHLayoutType::BasicBVH4)),
        }
    }

    /// The 8-wide layout, if it has been produced.
    pub fn bvh8_layout(&self) -> (r: Result<&wide::BVH8<B>, MissingLayout>)
        ensures
            self.eight_wide() matches Some(w) ==> r == Ok::<&wide::BVH8<B>, MissingLayout>(&w),
            self.eight_wide() is None ==> r == Err::<&wide::BVH8<B>, MissingLayout>(MissingLayout(BVHLayoutType::BasicBVH8)),
    {
        match &self.wide8 {
            Some(w) => Ok(w),
            None => Err(MissingLayout::new(BVHLayoutType::BasicBVH8)),
        }
    }

    /// Number of nodes in the given layout.
    pub fn node_count(&self, layout: BVHLayoutType) -> (r: Result<usize, MissingLayout>)
        ensures
            !self.has(layout) ==> r == Err::<usize, MissingLayout>(MissingLayout(layout)),
            layout == BVHLayoutType::Wald32Byte && self.has(layout) ==> r == Ok::<usize, MissingLayout>(
                self.binary()->0.nodes_view().len() as usize,
            ),
            layout == BVHLayoutType::Verbose && self.has(layout) ==> r == Ok::<usize, MissingLayout>(
                self.linked()->0.nodes_view().len() as usize,
            ),
            layout == BVHLayoutType::BasicBVH4 && self.has(layout) ==> r == Ok::<usize, MissingLayout>(
                self.four_wide()->0.nodes_view().len() as usize,
            ),
            layout == BVHLayoutType::BasicBVH8 && self.has(layout) ==> r == Ok::<usize, MissingLayout>(
                self.eight_wide()->0.nodes_view().len() as usize,
            ),
    {
        match layout {
            BVHLayoutType::Wald32Byte => match &self.wald {
                Some(b) => Ok(b.nodes().len()),
                None => Err(MissingLayout::new(layout)),
            },
            BVHLayoutType::Verbose => match &self.verbose {
                Some(v) => Ok(v.nodes().len()),
                None => Err(MissingLayout::new(layout)),
            },
            BVHLayoutType::BasicBVH4 => match &self.wide4 {
                Some(w) => Ok(w.nodes().len()),
                None => Err(MissingLayout::new(layout)),
            },
            BVHLayoutType::BasicBVH8 => match &self.wide8 {
                Some(w) => Ok(w.nodes().len()),
                None => Err(MissingLayout::new(layout)),
            },
            _ => Err(MissingLayout::new(layout)),
        }
    }

    /// Removes the unused slots of the given layout.
    pub fn compact(&mut self, layout: BVHLayoutType) -> (r: Result<(), BVHCompactError>)
        requires
            old(self).wf(),
        ensures
            final(self).wf(),
            layout != BVHLayoutType::Wald32Byte && layout != BVHLayoutType::Verbose ==> r == Err::<
                (),
                BVHCompactError,
            >(BVHCompactError::UnsupportedLayout(layout)),
            (layout == BVHLayoutType::Wald32Byte || layout == BVHLayoutType::Verbose) && !old(self).has(layout)
                ==> r == Err::<(), BVHCompactError>(BVHCompactError::MissingLayout(layout)),
            r is Err ==> *final(self) == *old(self),
            r is Ok <==> (layout == BVHLayoutType::Wald32Byte || layout == BVHLayoutType::Verbose) && old(self).has(layout),
            final(self).linked() == old(self).linked(),
            final(self).four_wide() == old(self).four_wide(),
            final(self).eight_wide() == old(self).eight_wide(),
            layout == BVHLayoutType::Wald32Byte && r is Ok ==> final(self).binary()->0.nodes_view()
                == wald::compacted(old(self).binary()->0.nodes_view()) && final(self).binary()->0.indices_view()
                == old(self).binary()->0.indices_view(),
            layout == BVHLayoutType::Verbose ==> final(self).binary() == old(self).binary(),
    {
        match layout {
            BVHLayoutType::Wald32Byte => match &mut self.wald {
                Some(b) => {
                    proof {
                        wald::lemma_compact_idempotent(b.nodes_view());
                    }
                    b.compact();
                    Ok(())
                },
                None => Err(BVHCompactError::MissingLayout(layout)),
            },
            BVHLayoutType::Verbose => match &self.verbose {
                Some(_) => Ok(()),
                None => Err(BVHCompactError::MissingLayout(layout)),
            },
            _ => Err(BVHCompactError::UnsupportedLayout(layout)),
        }
    }

    /// Recomputes the boxes of the linked layout from its leaves up, with
    /// `union` giving the box of two boxes, and writes them back into the
    /// binary layout (which becomes its compacted form). The wide layouts
    /// derived before are dropped: they no longer match and have to be
    /// converted again, from the new boxes.
    pub fn refit<F: Fn(B, B) -> B>(&mut self, union: F) -> (r: Result<(), MissingLayout>)
        requires
            old(self).wf(),
            forall|a: B, b: B| #[trigger] union.requires((a, b)),
        ensures
            final(self).wf(),
            r is Ok <==> old(self).has(BVHLayoutType::Verbose),
            r is Err ==> r == Err::<(), MissingLayout>(MissingLayout(BVHLayoutType::Verbose)) && *final(self)
                == *old(self),
            r is Ok ==> final(self).four_wide() is None && final(self).eight_wide() is None,
            r is Ok ==> (final(self).binary() matches Some(nb) && final(self).linked() matches Some(v)
                && nb.nodes_view() == reboxed(wald::compacted(old(self).binary()->0.nodes_view()), v.nodes_view())
                && nb.indices_view() == old(self).binary()->0.indices_view()),
            r is Ok ==> (final(self).linked() matches Some(v) && verbose::same_shape(
                old(self).linked()->0.nodes_view(),
                v.nodes_view(),
            ) && forall|i: int|
                0 <= i < v.nodes_view().len() ==> #[trigger] verbose::refitted_at(v.nodes_view(), union, i)),
    {
        if self.verbose.is_none() {
            return Err(MissingLayout::new(BVHLayoutType::Verbose));
        }
        let ghost b0 = self.binary()->0;
        let ghost c = wald::compacted(b0.nodes_view());
        let ghost v0 = self.linked()->0.nodes_view();
        proof {
            assert(linked_shape(c, v0));
        }
        match &mut self.verbose {
            Some(v) => {
                v.refit(union);
            },
            None => {},
        }
        proof {
            let v1 = self.linked()->0.nodes_view();
            assert(verbose::same_shape(v0, v1));
            assert forall|i: int| 0 <= i < c.len() implies {
                &&& (#[trigger] v1[i]).tri_count == c[i].tri_count
                &&& (c[i].tri_count > 0 ==> v1[i].first_tri == c[i].left_first)
                &&& (c[i].tri_count == 0 ==> v1[i].left == c[i].left_first)
            } by {
                assert(v0[i] == v0[i]);
                assert(v0[i].tri_count == v1[i].tri_count && v0[i].left == v1[i].left && v0[i].first_tri
                    == v1[i].first_tri);
            }
            assert(linked_shape(c, v1));
        }
        let nb = match (&self.verbose, &self.wald) {
            (Some(v), Some(b)) => {
                let vs = v.nodes();
                let mut out: Vec<wald::Node<B>> = Vec::new();
                let mut i: usize = 0;
                while i < vs.len()
                    invariant
                        i <= vs@.len(),
                        vs@.len() == c.len(),
                        linked_shape(c, vs@),
                        out@.len() == i,
                        forall|k: int| 0 <= k < i ==> #[trigger] out@[k] == reboxed(c, vs@)[k],
                    decreases vs@.len() - i,
                {
                    let nd = vs[i];
                    if nd.tri_count > 0 {
                        out.push(wald::Node { bounds: nd.bounds, left_first: nd.first_tri, tri_count: nd.tri_count });
                    } else {
                        out.push(wald::Node { bounds: nd.bounds, left_first: nd.left, tri_count: 0 });
                    }
                    i = i + 1;
                }
                proof {
                    assert(out@ =~= reboxed(c, vs@));
                    lemma_reboxed(b0.nodes_view(), b0.indices_view(), vs@);
                }
                wald::BVH::assemble(out, b.indices().clone())
            },
            _ => {
                return Err(MissingLayout::new(BVHLayoutType::Verbose));
            },
        };
        self.wald = Some(nb);
        self.wide4 = None;
        self.wide8 = None;
        Ok(())
    }

    /// Produces layout `to` from layout `from`: the linked layout or a wide
    /// layout from the binary one. `larger` ranks boxes by surface area for
    /// the wide collapse.
    pub fn convert<F: Fn(B, B) -> bool>(&mut self, from: BVHLayoutType, to: BVHLayoutType, larger: F) -> (r: Result<
        (),
        BVHConvertError,
    >)
        requires
            old(self).wf(),
            wide::strict_ranking(larger),
        ensures
            final(self).wf(),
            !supported_conversion(from, to) ==> r == Err::<(), BVHConvertError>(
                BVHConvertError::UnsupportedConversion(from, to),
            ),
            supported_conversion(from, to) && !old(self).has(from) ==> r == Err::<(), BVHConvertError>(
                BVHConvertError::MissingLayout(from),
            ),
            r is Err ==> *final(self) == *old(self),
            r is Ok <==> supported_conversion(from, to) && old(self).has(from),
            final(self).binary() == old(self).binary(),
            to != BVHLayoutType::Verbose ==> final(self).linked() == old(self).linked(),
            to != BVHLayoutType::BasicBVH4 ==> final(self).four_wide() == old(self).four_wide(),
            to != BVHLayoutType::BasicBVH8 ==> final(self).eight_wide() == old(self).eight_wide(),
            r is Ok && to == BVHLayoutType::Verbose ==> (final(self).linked() matches Some(v)
                && v.nodes_view().len() == wald::compacted(old(self).binary()->0.nodes_view()).len()
                && forall|i: int|
                0 <= i < v.nodes_view().len() ==> #[trigger] v.nodes_view()[i] == verbose::from_binary(
                    wald::compacted(old(self).binary()->0.nodes_view())[i],
                    v.nodes_view()[i].parent,
                )),
            r is Ok && to == BVHLayoutType::BasicBVH4 ==> (final(self).four_wide() matches Some(w)
                && wide::widened(wald::compacted(old(self).binary()->0.nodes_view()), w.nodes_view())
                && w.indices_view() == old(self).binary()->0.indices_view()),
            r is Ok && to == BVHLayoutType::BasicBVH8 ==> (final(self).eight_wide() matches Some(w)
                && wide::widened(wald::compacted(old(self).binary()->0.nodes_view()), w.nodes_view())
                && w.indices_view() == old(self).binary()->0.indices_view()),
    {
        if !(from == BVHLayoutType::Wald32Byte && (to == BVHLayoutType::Verbose || to == BVHLayoutType::BasicBVH4
            || to == BVHLayoutType::BasicBVH8)) {
            return Err(BVHConvertError::UnsupportedConversion(from, to));
        }
        match &self.wald {
            Some(b) => {
                if to == BVHLayoutType::Verbose {
                    let v = verbose::BVH::build(b);
                    self.verbose = Some(v);
                } else if to == BVHLayoutType::BasicBVH4 {
                    let w = wide::BVH4::convert_from(b, larger);
                    self.wide4 = Some(w);
                } else {
                    let w = wide::BVH8::convert_from(b, larger);
                    self.wide8 = Some(w);
                }
                Ok(())
            },
            None => Err(BVHConvertError::MissingLayout(from)),
        }
    }
}

/// The conversions that exist here: from the binary layout to the linked
/// layout or to the 4-wide or 8-wide layout.
pub open spec fn supported_conversion(from: BVHLayoutType, to: BVHLayoutType) -> bool {
    from == BVHLayoutType::Wald32Byte && (to == BVHLayoutType::Verbose || to == BVHLayoutType::BasicBVH4 || to
        == BVHLayoutType::BasicBVH8)
}

} // verus!
