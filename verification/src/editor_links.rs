//! Vector documents placed as layers, and the links that keep some of them up to
//! date with their files.
//!
//! Files are read and drawn elsewhere; a moment is counted from a common origin.

use crate::editor::PigmentApp;
use crate::layer::{Layer, LayerId, LayerKind};
use std::collections::HashMap;
use vstd::prelude::*;
use vstd::string::*;

verus! {

broadcast use vstd::std_specs::hash::group_hash_axioms;

/// Whether a layer is among the first `n`.
pub open spec fn among(layers: Seq<Layer>, n: int, id: u64) -> bool {
    exists|k: int| 0 <= k < n && (#[trigger] layers[k]).id.0 == id
}

/// The links whose layer is among the first `n`.
pub open spec fn kept_links(
    links: Map<u64, i128>,
    layers: Seq<Layer>,
    n: int,
) -> Map<u64, i128> {
    Map::new(|id: u64| links.dom().contains(id) && among(layers, n, id), |id: u64| links[id])
}

/// Whether a link has to be drawn again, its file having last changed at `at`.
pub open spec fn link_due(links: Map<u64, i128>, id: LayerId, at: i128) -> bool {
    links.dom().contains(id.0) && links[id.0] < at
}

/// The links after those in `shown` were drawn, in turn.
pub open spec fn links_after(links: Map<u64, i128>, shown: Seq<(LayerId, i128)>) -> Map<u64, i128>
    decreases shown.len(),
{
    if shown.len() == 0 {
        links
    } else {
        let before = links_after(links, shown.drop_last());
        let (id, at) = shown.last();
        if before.dom().contains(id.0) {
            before.insert(id.0, at)
        } else {
            before
        }
    }
}

impl PigmentApp {
    /// Place a vector document as a raster layer.
    pub fn place_contour(&mut self, name: String) -> (id: LayerId)
        requires
            old(self).wf(),
            old(self).doc.layers.next_id < u64::MAX,
        ensures
            final(self).wf(),
            id == LayerId(old(self).doc.layers.next_id),
            final(self).topped(
                (PigmentApp { force_composite: true, ..*old(self) }),
                name@,
                LayerKind::Raster,
            ),
    {
        self.force_composite = true;
        self.add_layer(name, LayerKind::Raster)
    }

    /// Place a vector document as a raster layer that follows its file, which last
    /// changed at `at`. Where that is not known, any change counts as news.
    pub fn place_contour_linked(&mut self, name: String, at: Option<i128>) -> (id: LayerId)
        requires
            old(self).wf(),
            old(self).doc.layers.next_id < u64::MAX,
        ensures
            final(self).wf(),
            id == LayerId(old(self).doc.layers.next_id),
            final(self).topped(
                (PigmentApp {
                    force_composite: true,
                    linked_contours: final(self).linked_contours,
                    ..*old(self)
                }),
                name@ + " (linked)"@,
                LayerKind::Raster,
            ),
            final(self).linked_contours@ == old(self).linked_contours@.insert(
                id.0,
                match at {
                    Some(t) => t,
                    None => 0,
                },
            ),
    {
        let id: LayerId = self.place_contour(name.concat(" (linked)"));
        self.linked_contours.insert(
            id.0,
            match at {
                Some(t) => t,
                None => 0,
            },
        );
        id
    }

    /// Forget the links of layers that are gone.
    pub fn prune_links(&mut self)
        ensures
            final(self).linked_contours@ == kept_links(
                old(self).linked_contours@,
                old(self).doc.layers.layers@,
                old(self).doc.layers.layers@.len() as int,
            ),
            *final(self) == (PigmentApp {
                linked_contours: final(self).linked_contours,
                ..*old(self)
            }),
    {
        let mut kept: HashMap<u64, i128> = HashMap::new();
        let ghost (links, layers) = (self.linked_contours@, self.doc.layers.layers@);
        let n: usize = self.doc.layers.layers.len();
        let mut k: usize = 0;
        assert(kept@ =~= kept_links(links, layers, 0));
        while k < n
            invariant
                k <= n == layers.len(),
                layers == self.doc.layers.layers@,
                links == self.linked_contours@,
                *self == *old(self),
                kept@ == kept_links(links, layers, k as int),
            decreases n - k,
        {
            let id: u64 = self.doc.layers.layers[k].id.0;
            assert(layers[k as int].id.0 == id);
            if let Some(at) = self.linked_contours.get(&id) {
                kept.insert(id, *at);
            }
            assert forall|i: u64| among(layers, k + 1, i) == (among(layers, k as int, i) || i
                == id) by {
                if among(layers, k as int, i) {
                    let j = choose|j: int| 0 <= j < k && (#[trigger] layers[j]).id.0 == i;
                    assert(layers[j].id.0 == i);
                }
            }
            assert(kept@ =~= kept_links(links, layers, k + 1));
            k = k + 1;
        }
        self.linked_contours = kept;
    }

    /// Which links have to be drawn again, of files and when they last changed.
    pub fn due_links(&self, stats: &Vec<(LayerId, i128)>) -> (r: Vec<(LayerId, i128)>)
        ensures
            r@ == stats@.filter(
                |s: (LayerId, i128)| link_due(self.linked_contours@, s.0, s.1),
            ),
    {
        let ghost due = |s: (LayerId, i128)| link_due(self.linked_contours@, s.0, s.1);
        let mut r: Vec<(LayerId, i128)> = Vec::new();
        let mut i: usize = 0;
        assert(stats@.take(0).filter(due) =~= Seq::<(LayerId, i128)>::empty()) by {
            reveal(Seq::filter);
        }
        while i < stats.len()
            invariant
                i <= stats@.len(),
                due == (|s: (LayerId, i128)| link_due(self.linked_contours@, s.0, s.1)),
                r@ == stats@.take(i as int).filter(due),
            decreases stats@.len() - i,
        {
            let (id, at): (LayerId, i128) = stats[i];
            let news: bool = match self.linked_contours.get(&id.0) {
                Some(last) => *last < at,
                None => false,
            };
            proof {
                let (front, whole) = (stats@.take(i as int), stats@.take(i + 1));
                assert(whole.drop_last() =~= front);
                assert(whole.filter(due) == (if due(whole.last()) {
                    front.filter(due).push(whole.last())
                } else {
                    front.filter(due)
                })) by {
                    reveal(Seq::filter);
                }
            }
            if news {
                r.push((id, at));
            }
            i = i + 1;
        }
        assert(stats@.take(stats@.len() as int) =~= stats@);
        r
    }

    /// Links were drawn, as their files were at the given moments.
    pub fn links_shown(&mut self, shown: &Vec<(LayerId, i128)>)
        ensures
            final(self).linked_contours@ == links_after(old(self).linked_contours@, shown@),
            *final(self) == (PigmentApp {
                linked_contours: final(self).linked_contours,
                force_composite: old(self).force_composite || shown@.len() > 0,
                ..*old(self)
            }),
    {
        let mut i: usize = 0;
        while i < shown.len()
            invariant
                i <= shown@.len(),
                *self == (PigmentApp {
                    linked_contours: self.linked_contours,
                    ..*old(self)
                }),
                self.linked_contours@ == links_after(
                    old(self).linked_contours@,
                    shown@.take(i as int),
                ),
            decreases shown@.len() - i,
        {
            let (id, at): (LayerId, i128) = shown[i];
            assert(shown@.take(i + 1).drop_last() =~= shown@.take(i as int));
            if self.linked_contours.contains_key(&id.0) {
                self.linked_contours.insert(id.0, at);
            }
            i = i + 1;
        }
        assert(shown@.take(shown@.len() as int) =~= shown@);
        if shown.len() > 0 {
            self.force_composite = true;
        }
    }
}

/// A link that was drawn is not due until its file changes again.
pub proof fn law_shown_link_is_not_due(links: Map<u64, i128>, id: LayerId, at: i128, later: i128)
    ensures
        !link_due(links_after(links, seq![(id, at)]), id, at),
        links.dom().contains(id.0) && at < later ==> link_due(
            links_after(links, seq![(id, at)]),
            id,
            later,
        ),
{
    let one = seq![(id, at)];
    assert(one.drop_last() =~= Seq::empty());
    assert(one.last() == (id, at));
    reveal_with_fuel(links_after, 2);
}

/// A link whose layer is gone is never due again.
pub proof fn law_lost_link_is_not_due(
    links: Map<u64, i128>,
    layers: Seq<Layer>,
    id: LayerId,
    at: i128,
)
    requires
        !among(layers, layers.len() as int, id.0),
    ensures
        !link_due(kept_links(links, layers, layers.len() as int), id, at),
{
}

} // verus!
