//! Smart filters: a per-layer, non-destructive stack of filters that is re-run
//! from the layer's stored source pixels after every change.
//!
//! This is the model of the stack: the kinds and their parameters, the edits,
//! and the form in which a stack is saved.

use crate::arith::law_small_numbers_are_exact;
use crate::scalar::{clip, law_whole_numbers_survive, Scalar};
use vstd::prelude::*;

verus! {

/// A filter that can live in a stack, with its parameters.
#[derive(Clone, Copy, PartialEq, Eq, Structural, Debug)]
pub enum SmartFilterKind {
    /// Gaussian blur; the radius is in pixels.
    GaussianBlur { radius: Scalar },
    /// Unsharp-mask sharpen.
    Sharpen { amount: Scalar },
    /// Reduce each channel to a number of display-space levels.
    Posterize { levels: u32 },
}

/// One render pass: the shader kind, a radius and an amount.
pub type SmartPass = (u32, Scalar, Scalar);

/// A saved filter.
#[derive(Clone, Copy, PartialEq, Eq, Debug)]
pub struct SmartFilterMeta {
    pub kind: u32,
    pub params: [Scalar; 4],
    pub enabled: bool,
}

impl SmartFilterKind {
    /// The number that a kind is saved under.
    pub open spec fn number(self) -> u32 {
        match self {
            SmartFilterKind::GaussianBlur { .. } => 0,
            SmartFilterKind::Sharpen { .. } => 1,
            SmartFilterKind::Posterize { .. } => 2,
        }
    }

    /// The parameter that a kind is saved with.
    pub open spec fn parameter(self) -> Scalar {
        match self {
            SmartFilterKind::GaussianBlur { radius } => radius,
            SmartFilterKind::Sharpen { amount } => amount,
            SmartFilterKind::Posterize { levels } => Scalar::whole(levels as int),
        }
    }

    /// The kind saved under number `id` with parameter `p`. An unknown number
    /// stands for a blur that does nothing.
    pub open spec fn saved_as(id: u32, p: Scalar) -> SmartFilterKind {
        if id == 0 {
            SmartFilterKind::GaussianBlur { radius: p }
        } else if id == 1 {
            SmartFilterKind::Sharpen { amount: p }
        } else if id == 2 {
            SmartFilterKind::Posterize {
                levels: clip(p.cast(p.round_int(), 0, u32::MAX as int), 2, 255) as u32,
            }
        } else {
            SmartFilterKind::GaussianBlur { radius: Scalar { bits: 0 } }
        }
    }

    /// The render pass of a kind.
    pub open spec fn pass(self) -> SmartPass {
        let zero = Scalar { bits: 0 };
        match self {
            SmartFilterKind::GaussianBlur { radius } => (1, radius, zero),
            SmartFilterKind::Sharpen { amount } => (2, zero, amount),
            SmartFilterKind::Posterize { levels } => (
                28,
                zero,
                Scalar::whole(clip(levels as int, 2, 255)),
            ),
        }
    }

    /// The number that this kind is saved under.
    pub fn id(&self) -> (r: u32)
        ensures
            r == self.number(),
    {
        match self {
            SmartFilterKind::GaussianBlur { .. } => 0,
            SmartFilterKind::Sharpen { .. } => 1,
            SmartFilterKind::Posterize { .. } => 2,
        }
    }

    /// The parameters that this kind is saved with.
    pub fn params(&self) -> (r: [Scalar; 4])
        ensures
            r@ == seq![
                self.parameter(),
                Scalar { bits: 0 },
                Scalar { bits: 0 },
                Scalar { bits: 0 },
            ],
    {
        let zero: Scalar = Scalar::zero();
        match *self {
            SmartFilterKind::GaussianBlur { radius } => [radius, zero, zero, zero],
            SmartFilterKind::Sharpen { amount } => [amount, zero, zero, zero],
            SmartFilterKind::Posterize { levels } => [Scalar::from_u32(levels), zero, zero, zero],
        }
    }

    /// The kind that was saved under a number with parameters.
    pub fn from_id(id: u32, p: [Scalar; 4]) -> (r: SmartFilterKind)
        ensures
            r == SmartFilterKind::saved_as(id, p@[0]),
    {
        match id {
            0 => SmartFilterKind::GaussianBlur { radius: p[0] },
            1 => SmartFilterKind::Sharpen { amount: p[0] },
            2 => SmartFilterKind::Posterize { levels: limit_levels(p[0].round_u32()) },
            _ => SmartFilterKind::GaussianBlur { radius: Scalar::zero() },
        }
    }

    /// The name shown in the stack list.
    pub fn label(&self) -> (r: &'static str)
        ensures
            r@ == match *self {
                SmartFilterKind::GaussianBlur { .. } => "Gaussian Blur"@,
                SmartFilterKind::Sharpen { .. } => "Sharpen"@,
                SmartFilterKind::Posterize { .. } => "Posterize"@,
            },
    {
        match self {
            SmartFilterKind::GaussianBlur { .. } => "Gaussian Blur",
            SmartFilterKind::Sharpen { .. } => "Sharpen",
            SmartFilterKind::Posterize { .. } => "Posterize",
        }
    }

    /// The render pass that runs this filter.
    pub fn gpu_pass(&self) -> (r: SmartPass)
        ensures
            r == self.pass(),
    {
        let zero: Scalar = Scalar::zero();
        match *self {
            SmartFilterKind::GaussianBlur { radius } => (1, radius, zero),
            SmartFilterKind::Sharpen { amount } => (2, zero, amount),
            SmartFilterKind::Posterize { levels } => (
                28,
                zero,
                Scalar::from_u32(limit_levels(levels)),
            ),
        }
    }
}

/// A level count that posterizing accepts.
fn limit_levels(levels: u32) -> (r: u32)
    ensures
        r == clip(levels as int, 2, 255),
{
    if levels < 2 {
        2
    } else if levels > 255 {
        255
    } else {
        levels
    }
}

/// An entry of a stack. A disabled one stays in the stack but is not run.
#[derive(Clone, Copy, PartialEq, Eq, Structural, Debug)]
pub struct SmartFilter {
    pub kind: SmartFilterKind,
    pub enabled: bool,
}

impl SmartFilter {
    pub fn new(kind: SmartFilterKind) -> (r: SmartFilter)
        ensures
            r == (SmartFilter { kind, enabled: true }),
    {
        SmartFilter { kind, enabled: true }
    }
}

/// A layer's filters in the order in which they run.
#[derive(PartialEq, Eq, Debug)]
pub struct SmartFilterStack {
    pub filters: Vec<SmartFilter>,
}

impl Default for SmartFilterStack {
    fn default() -> (r: SmartFilterStack)
        ensures
            r.filters@ == Seq::<SmartFilter>::empty(),
    {
        SmartFilterStack { filters: Vec::new() }
    }
}

/// `s` with the entries `i` and `j` exchanged.
pub open spec fn exchanged<T>(s: Seq<T>, i: int, j: int) -> Seq<T> {
    s.update(i, s[j]).update(j, s[i])
}

/// The passes of the enabled entries, in order.
pub open spec fn passes(s: Seq<SmartFilter>) -> Seq<SmartPass> {
    s.filter(|f: SmartFilter| f.enabled).map_values(|f: SmartFilter| f.kind.pass())
}

/// What is saved of an entry.
pub open spec fn saves(f: SmartFilter, m: SmartFilterMeta) -> bool {
    &&& m.kind == f.kind.number()
    &&& m.params@ == seq![
        f.kind.parameter(),
        Scalar { bits: 0 },
        Scalar { bits: 0 },
        Scalar { bits: 0 },
    ]
    &&& m.enabled == f.enabled
}

/// The entry that a saved one stands for.
pub open spec fn restored(m: SmartFilterMeta) -> SmartFilter {
    SmartFilter {
        kind: SmartFilterKind::saved_as(m.kind, m.params@[0]),
        enabled: m.enabled,
    }
}

impl SmartFilterStack {
    pub fn is_empty(&self) -> (r: bool)
        ensures
            r == (self.filters@.len() == 0),
    {
        self.filters.len() == 0
    }

    /// Put a filter, enabled, on top of the stack.
    pub fn add(&mut self, kind: SmartFilterKind)
        ensures
            final(self).filters@ == old(self).filters@.push(SmartFilter { kind, enabled: true }),
    {
        self.filters.push(SmartFilter::new(kind));
    }

    /// Remove the filter at `i`, if there is one.
    pub fn remove(&mut self, i: usize)
        ensures
            final(self).filters@ == (if i < old(self).filters@.len() {
                old(self).filters@.remove(i as int)
            } else {
                old(self).filters@
            }),
    {
        if i < self.filters.len() {
            self.filters.remove(i);
        }
    }

    /// Enable or disable the filter at `i`, if there is one.
    pub fn toggle(&mut self, i: usize)
        ensures
            final(self).filters@ == (if i < old(self).filters@.len() {
                old(self).filters@.update(
                    i as int,
                    SmartFilter {
                        enabled: !old(self).filters@[i as int].enabled,
                        ..old(self).filters@[i as int]
                    },
                )
            } else {
                old(self).filters@
            }),
    {
        if i < self.filters.len() {
            let f: SmartFilter = self.filters[i];
            self.filters[i] = SmartFilter { enabled: !f.enabled, ..f };
        }
    }

    /// Replace the kind of the filter at `i`, if there is one.
    pub fn edit(&mut self, i: usize, kind: SmartFilterKind)
        ensures
            final(self).filters@ == (if i < old(self).filters@.len() {
                old(self).filters@.update(
                    i as int,
                    SmartFilter { kind, ..old(self).filters@[i as int] },
                )
            } else {
                old(self).filters@
            }),
    {
        if i < self.filters.len() {
            let f: SmartFilter = self.filters[i];
            self.filters[i] = SmartFilter { kind, ..f };
        }
    }

    /// Run the filter at `i` one step earlier. Nothing changes at the front or
    /// out of range.
    pub fn move_up(&mut self, i: usize)
        ensures
            final(self).filters@ == (if 0 < i < old(self).filters@.len() {
                exchanged(old(self).filters@, i as int, i - 1)
            } else {
                old(self).filters@
            }),
    {
        if i > 0 && i < self.filters.len() {
            let (a, b): (SmartFilter, SmartFilter) = (self.filters[i], self.filters[i - 1]);
            self.filters[i] = b;
            self.filters[i - 1] = a;
        }
    }

    /// Run the filter at `i` one step later. Nothing changes at the back or out
    /// of range.
    pub fn move_down(&mut self, i: usize)
        ensures
            final(self).filters@ == (if i + 1 < old(self).filters@.len() {
                exchanged(old(self).filters@, i as int, i + 1)
            } else {
                old(self).filters@
            }),
    {
        if i < self.filters.len() && i + 1 < self.filters.len() {
            let (a, b): (SmartFilter, SmartFilter) = (self.filters[i], self.filters[i + 1]);
            self.filters[i] = b;
            self.filters[i + 1] = a;
        }
    }

    /// The passes of the enabled filters, in order.
    pub fn enabled_passes(&self) -> (r: Vec<SmartPass>)
        ensures
            r@ == passes(self.filters@),
    {
        let mut out: Vec<SmartPass> = Vec::new();
        let mut i: usize = 0;
        proof {
            assert(passes(self.filters@.take(0)) =~= Seq::<SmartPass>::empty()) by {
                reveal(Seq::filter);
            }
        }
        while i < self.filters.len()
            invariant
                i <= self.filters@.len(),
                out@ == passes(self.filters@.take(i as int)),
            decreases self.filters@.len() - i,
        {
            let f: SmartFilter = self.filters[i];
            proof {
                let next = self.filters@.take(i + 1);
                assert(next.drop_last() =~= self.filters@.take(i as int));
                assert(next.last() == f);
                reveal(Seq::filter);
                assert(passes(next) =~= if f.enabled {
                    passes(self.filters@.take(i as int)).push(f.kind.pass())
                } else {
                    passes(self.filters@.take(i as int))
                });
            }
            if f.enabled {
                out.push(f.kind.gpu_pass());
            }
            i = i + 1;
        }
        assert(self.filters@.take(i as int) =~= self.filters@);
        out
    }

    /// The stack as it is saved.
    pub fn to_meta(&self) -> (r: Vec<SmartFilterMeta>)
        ensures
            r@.len() == self.filters@.len(),
            forall|i: int| 0 <= i < r@.len() ==> saves(self.filters@[i], #[trigger] r@[i]),
    {
        let mut out: Vec<SmartFilterMeta> = Vec::new();
        let mut i: usize = 0;
        while i < self.filters.len()
            invariant
                i <= self.filters@.len(),
                out@.len() == i,
                forall|j: int| 0 <= j < i ==> saves(self.filters@[j], #[trigger] out@[j]),
            decreases self.filters@.len() - i,
        {
            let f: SmartFilter = self.filters[i];
            out.push(
                SmartFilterMeta { kind: f.kind.id(), params: f.kind.params(), enabled: f.enabled },
            );
            i = i + 1;
        }
        out
    }

    /// The stack that was saved.
    pub fn from_meta(meta: &[SmartFilterMeta]) -> (r: SmartFilterStack)
        ensures
            r.filters@ == meta@.map_values(|m: SmartFilterMeta| restored(m)),
    {
        let mut filters: Vec<SmartFilter> = Vec::new();
        let mut i: usize = 0;
        while i < meta.len()
            invariant
                i <= meta@.len(),
                filters@.len() == i,
                forall|j: int| 0 <= j < i ==> #[trigger] filters@[j] == restored(meta@[j]),
            decreases meta@.len() - i,
        {
            let m: SmartFilterMeta = meta[i];
            filters.push(
                SmartFilter { kind: SmartFilterKind::from_id(m.kind, m.params), enabled: m.enabled },
            );
            i = i + 1;
        }
        assert(filters@ =~= meta@.map_values(|m: SmartFilterMeta| restored(m)));
        SmartFilterStack { filters }
    }

    /// A copy of the stack.
    pub fn copied(&self) -> (r: SmartFilterStack)
        ensures
            r.filters@ == self.filters@,
    {
        let mut filters: Vec<SmartFilter> = Vec::new();
        let mut i: usize = 0;
        while i < self.filters.len()
            invariant
                i <= self.filters@.len(),
                filters@ == self.filters@.take(i as int),
            decreases self.filters@.len() - i,
        {
            filters.push(self.filters[i]);
            assert(self.filters@.take(i + 1) =~= self.filters@.take(i as int).push(
                self.filters@[i as int],
            ));
            i = i + 1;
        }
        assert(self.filters@.take(i as int) =~= self.filters@);
        SmartFilterStack { filters }
    }
}

/// Whether posterizing takes the kind's level count as it is.
pub open spec fn in_range(k: SmartFilterKind) -> bool {
    k matches SmartFilterKind::Posterize { levels } ==> 2 <= levels <= 255
}

/// A saved stack comes back as it was, with its order and its disabled entries.
/// A level count that posterizing would limit comes back limited.
pub proof fn law_saved_stack_returns(
    s: Seq<SmartFilter>,
    meta: Seq<SmartFilterMeta>,
)
    requires
        meta.len() == s.len(),
        forall|i: int| 0 <= i < s.len() ==> saves(s[i], #[trigger] meta[i]),
        forall|i: int| 0 <= i < s.len() ==> in_range((#[trigger] s[i]).kind),
    ensures
        meta.map_values(|m: SmartFilterMeta| restored(m)) == s,
{
    assert forall|i: int| 0 <= i < s.len() implies restored(meta[i]) == s[i] by {
        assert(saves(s[i], meta[i]));
        if let SmartFilterKind::Posterize { levels } = s[i].kind {
            law_small_numbers_are_exact(levels as int);
            law_whole_numbers_survive(Scalar::whole(levels as int), levels as int);
        }
    }
    assert(meta.map_values(|m: SmartFilterMeta| restored(m)) =~= s);
}

/// Disabling an entry and enabling it again gives the stack back.
pub proof fn law_toggle_twice(s: Seq<SmartFilter>, i: int)
    requires
        0 <= i < s.len(),
    ensures
        ({
            let once = s.update(i, SmartFilter { enabled: !s[i].enabled, ..s[i] });
            once.update(i, SmartFilter { enabled: !once[i].enabled, ..once[i] }) == s
        }),
{
    let once = s.update(i, SmartFilter { enabled: !s[i].enabled, ..s[i] });
    assert(once.update(i, SmartFilter { enabled: !once[i].enabled, ..once[i] }) =~= s);
}

/// Moving an entry up and then down again gives the stack back.
pub proof fn law_move_down_undoes_move_up(s: Seq<SmartFilter>, i: int)
    requires
        0 < i < s.len(),
    ensures
        exchanged(exchanged(s, i, i - 1), i - 1, i) == s,
{
    assert(exchanged(exchanged(s, i, i - 1), i - 1, i) =~= s);
}

/// A stack runs no pass exactly when every entry of it is disabled.
pub proof fn law_disabled_stack_runs_nothing(s: Seq<SmartFilter>)
    ensures
        passes(s).len() == 0 <==> forall|i: int| 0 <= i < s.len() ==> !(#[trigger] s[i]).enabled,
    decreases s.len(),
{
    reveal(Seq::filter);
    if s.len() > 0 {
        law_disabled_stack_runs_nothing(s.drop_last());
        let all = forall|i: int| 0 <= i < s.len() ==> !(#[trigger] s[i]).enabled;
        let front = forall|i: int|
            0 <= i < s.len() - 1 ==> !(#[trigger] s.drop_last()[i]).enabled;
        if all {
            assert forall|i: int| 0 <= i < s.len() - 1 implies !(
            #[trigger] s.drop_last()[i]).enabled by {
                assert(s.drop_last()[i] == s[i]);
            }
        }
        if front && !s.last().enabled {
            assert forall|i: int| 0 <= i < s.len() implies !(#[trigger] s[i]).enabled by {
                if i < s.len() - 1 {
                    assert(s.drop_last()[i] == s[i]);
                }
            }
        }
    }
}

} // verus!
