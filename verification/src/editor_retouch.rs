//! What the retouching tools leave to be solved when a stroke ends.

use crate::editor::PigmentApp;
use crate::editor_edit::{area, covers, lemma_area, whole_layer};
use crate::grid::pixel_count;
use crate::half_float::unpacks;
use crate::pattern::seen;
use crate::retouch::{clone_job, is_clone_job, straight_pixels, straightened, CloneJob};
use crate::scalar::Scalar;
use crate::stroke::worth_retouching;
use crate::tools::{any_marked, detail_label, negated, tone_label, PatchPlan};
use vstd::prelude::*;

verus! {

broadcast use vstd::std_specs::hash::group_hash_axioms;

/// How often the clone and the spot heal relax.
pub const RELAXATIONS: usize = 250;

/// The patch radius of the content-aware fill, and how often it passes.
pub const FILL_RADIUS: usize = 3;

pub const FILL_PASSES: usize = 6;

/// What has to be solved, on straight pixels.
pub enum RetouchWork {
    /// Move the texture of a source.
    Clone(CloneJob),
    /// Heal the marked pixels from what is near.
    SpotHeal { image: Vec<Scalar>, marks: Vec<bool> },
    /// Make up the marked pixels from what is around.
    ContentFill { image: Vec<Scalar>, marks: Vec<bool> },
    /// Lighten, or darken where the amount is negative.
    DodgeBurn { image: Vec<Scalar>, amount: Vec<Scalar> },
    /// Saturate, or desaturate where the amount is negative.
    Sponge { image: Vec<Scalar>, amount: Vec<Scalar> },
    /// Blur or sharpen.
    BlurSharpen { image: Vec<Scalar>, cover: Vec<Scalar>, sharpen: bool },
}

/// A retouch: the name of its undo step, and what has to be solved. A layer that
/// cannot be read leaves nothing to solve.
pub struct Retouch {
    pub label: &'static str,
    pub work: Option<RetouchWork>,
}

impl PigmentApp {
    /// `image` are the straight pixels of the layer with these stored bytes.
    pub open spec fn straight_image(self, bytes: Seq<u8>, image: Seq<Scalar>) -> bool {
        exists|prem: Seq<Scalar>| #[trigger]
            unpacks(bytes, prem) && straightened(prem, area(self.doc.size), image)
    }

    pub(crate) fn image_of(&self, bytes: &[u8]) -> (image: Vec<Scalar>)
        requires
            self.wf(),
            whole_layer(bytes@, self.doc.size),
        ensures
            self.straight_image(bytes@, image@),
    {
        proof {
            lemma_area(self.doc.size);
        }
        straight_pixels(bytes, self.doc.size.width, self.doc.size.height)
    }

    /// What the healing brush has to solve for its marks, on the active layer's
    /// stored bytes.
    pub fn do_heal(&self, marks: &Vec<bool>, bytes: Option<&[u8]>) -> (r: Retouch)
        requires
            self.wf(),
            marks@.len() == area(self.doc.size),
            bytes matches Some(b) ==> whole_layer(b@, self.doc.size),
        ensures
            r.label@ == "Healing Brush"@,
            match (bytes, r.work) {
                (Some(b), Some(RetouchWork::Clone(job))) => is_clone_job(
                    b@,
                    marks@,
                    None,
                    (self.doc.size.width as int, self.doc.size.height as int),
                    seq![self.clone_offset.x, self.clone_offset.y],
                    job,
                ),
                (None, None) => true,
                _ => false,
            },
    {
        proof {
            lemma_area(self.doc.size);
        }
        let offset: [Scalar; 2] = [self.clone_offset.x, self.clone_offset.y];
        assert(offset@ =~= seq![self.clone_offset.x, self.clone_offset.y]);
        let (w, h): (u32, u32) = (self.doc.size.width, self.doc.size.height);
        let work: Option<RetouchWork> = match bytes {
            Some(b) => Some(
                RetouchWork::Clone(clone_job(b, marks.as_slice(), None, w, h, offset)),
            ),
            None => None,
        };
        Retouch { label: "Healing Brush", work }
    }

    /// What a patch has to solve on the active layer's stored bytes. A region
    /// without pixels, or of another canvas, is no patch.
    pub fn do_patch(
        &mut self,
        plan: &PatchPlan,
        bytes: Option<&[u8]>,
        sel: Option<&[Scalar]>,
    ) -> (r: Option<Retouch>)
        requires
            old(self).wf(),
            bytes matches Some(b) ==> whole_layer(b@, old(self).doc.size),
            covers(sel, old(self).doc.size),
        ensures
            ({
                let worth = worth_retouching(plan.region@, old(self).doc.size);
                &&& r is Some == worth
                &&& r matches Some(p) ==> p.label@ == "Patch"@ && match (bytes, p.work) {
                    (Some(b), Some(RetouchWork::Clone(job))) => is_clone_job(
                        b@,
                        plan.region@,
                        seen(sel),
                        (old(self).doc.size.width as int, old(self).doc.size.height as int),
                        plan.offset@,
                        job,
                    ),
                    (None, None) => true,
                    _ => false,
                }
                &&& *final(self) == (PigmentApp {
                    force_composite: old(self).force_composite || worth,
                    ..*old(self)
                })
            }),
    {
        proof {
            lemma_area(self.doc.size);
        }
        let (w, h): (u32, u32) = (self.doc.size.width, self.doc.size.height);
        if !any_marked(&plan.region) || plan.region.len() != pixel_count(w, h) {
            return None;
        }
        self.force_composite = true;
        let work: Option<RetouchWork> = match bytes {
            Some(b) => Some(
                RetouchWork::Clone(clone_job(b, plan.region.as_slice(), sel, w, h, plan.offset)),
            ),
            None => None,
        };
        Some(Retouch { label: "Patch", work })
    }

    /// What the spot heal has to solve for its marks.
    pub fn do_spot_heal(&self, marks: Vec<bool>, bytes: Option<&[u8]>) -> (r: Retouch)
        requires
            self.wf(),
            bytes matches Some(b) ==> whole_layer(b@, self.doc.size),
        ensures
            r.label@ == "Spot Heal"@,
            match (bytes, r.work) {
                (Some(b), Some(RetouchWork::SpotHeal { image, marks: m })) => m == marks
                    && self.straight_image(b@, image@),
                (None, None) => true,
                _ => false,
            },
    {
        let work: Option<RetouchWork> = match bytes {
            Some(b) => Some(RetouchWork::SpotHeal { image: self.image_of(b), marks }),
            None => None,
        };
        Retouch { label: "Spot Heal", work }
    }

    /// What the content-aware fill has to solve for its marks.
    pub fn do_content_fill(&self, marks: Vec<bool>, bytes: Option<&[u8]>) -> (r: Retouch)
        requires
            self.wf(),
            bytes matches Some(b) ==> whole_layer(b@, self.doc.size),
        ensures
            r.label@ == "Content-Aware Fill"@,
            match (bytes, r.work) {
                (Some(b), Some(RetouchWork::ContentFill { image, marks: m })) => m == marks
                    && self.straight_image(b@, image@),
                (None, None) => true,
                _ => false,
            },
    {
        let work: Option<RetouchWork> = match bytes {
            Some(b) => Some(RetouchWork::ContentFill { image: self.image_of(b), marks }),
            None => None,
        };
        Retouch { label: "Content-Aware Fill", work }
    }

    /// What dodging, or burning, has to solve for the coverage of a stroke.
    pub fn do_dodge_burn(&self, cover: Vec<Scalar>, burn: bool, bytes: Option<&[u8]>) -> (r:
        Retouch)
        requires
            self.wf(),
            bytes matches Some(b) ==> whole_layer(b@, self.doc.size),
        ensures
            r.label@ == (if burn {
                "Burn"@
            } else {
                "Dodge"@
            }),
            match (bytes, r.work) {
                (Some(b), Some(RetouchWork::DodgeBurn { image, amount })) => amount@ == (if burn {
                    cover@.map_values(|c: Scalar| c.negation())
                } else {
                    cover@
                }) && self.straight_image(b@, image@),
                (None, None) => true,
                _ => false,
            },
    {
        let work: Option<RetouchWork> = match bytes {
            Some(b) => {
                let image: Vec<Scalar> = self.image_of(b);
                let amount: Vec<Scalar> = if burn {
                    negated(&cover)
                } else {
                    cover
                };
                Some(RetouchWork::DodgeBurn { image, amount })
            },
            None => None,
        };
        Retouch { label: tone_label(burn), work }
    }

    /// `work` is what the detail brush has to solve: saturate, desaturate, blur or
    /// sharpen.
    pub open spec fn details(self, cover: Seq<Scalar>, bytes: Seq<u8>, work: RetouchWork) -> bool {
        match work {
            RetouchWork::Sponge { image, amount } => self.detail_mode <= 1 && amount@ == (
            if self.detail_mode == 0 {
                cover
            } else {
                cover.map_values(|c: Scalar| c.negation())
            }) && self.straight_image(bytes, image@),
            RetouchWork::BlurSharpen { image, cover: c, sharpen } => self.detail_mode >= 2 && c@
                == cover && sharpen == (self.detail_mode != 2) && self.straight_image(
                bytes,
                image@,
            ),
            _ => false,
        }
    }

    /// What the detail brush has to solve for the coverage of a stroke.
    pub fn do_detail(&self, cover: Vec<Scalar>, bytes: Option<&[u8]>) -> (r: Retouch)
        requires
            self.wf(),
            bytes matches Some(b) ==> whole_layer(b@, self.doc.size),
        ensures
            r.label@ == (if self.detail_mode == 0 {
                "Saturate"@
            } else if self.detail_mode == 1 {
                "Desaturate"@
            } else if self.detail_mode == 2 {
                "Blur"@
            } else {
                "Sharpen"@
            }),
            r.work is Some == bytes is Some,
            r.work matches Some(w) ==> self.details(cover@, bytes->0@, w),
    {
        let work: Option<RetouchWork> = match bytes {
            Some(b) => {
                let image: Vec<Scalar> = self.image_of(b);
                match self.detail_mode {
                    0 => Some(RetouchWork::Sponge { image, amount: cover }),
                    1 => Some(RetouchWork::Sponge { image, amount: negated(&cover) }),
                    2 => Some(RetouchWork::BlurSharpen { image, cover, sharpen: false }),
                    _ => Some(RetouchWork::BlurSharpen { image, cover, sharpen: true }),
                }
            },
            None => None,
        };
        Retouch { label: detail_label(self.detail_mode), work }
    }
}

} // verus!
