//! A tube of exactly four liquid layers, top at index 0, with the
//! physical invariant that empty slots sit only above the liquid.
use vstd::prelude::*;
use crate::color::ColorModel;
use crate::color::LiquidColor;

verus! {

/// A tube model is well formed when it has exactly four layers and no
/// liquid floats above an empty slot: whenever a layer is empty, every
/// layer above it (at a smaller index) is empty too.
pub open spec fn tube_wf(s: Seq<ColorModel>) -> bool {
    &&& s.len() == 4
    &&& forall|i: int, j: int| 0 <= i <= j < s.len() && s[j] is Empty ==> s[i] is Empty
}

/// The number of contiguous empty layers at the top of the tube. For a
/// well-formed tube this is also the total number of empty layers: the
/// free capacity.
pub open spec fn empty_count(s: Seq<ColorModel>) -> int
    decreases s.len(),
{
    if s.len() == 0 {
        0
    } else if s[0] is Empty {
        1 + empty_count(s.skip(1))
    } else {
        0
    }
}

/// The length of the run of layers equal to `c` at the start of `s`.
pub open spec fn run_len_from(s: Seq<ColorModel>, c: ColorModel) -> int
    decreases s.len(),
{
    if s.len() == 0 || s[0] != c {
        0
    } else {
        1 + run_len_from(s.skip(1), c)
    }
}

/// The color of the topmost liquid layer, or `Empty` when the tube
/// holds no liquid at all.
pub open spec fn top_color(s: Seq<ColorModel>) -> ColorModel {
    if empty_count(s) == s.len() {
        ColorModel::Empty
    } else {
        s[empty_count(s)]
    }
}

/// The size of the maximal same-colored block at the top of the
/// liquid; zero when the tube is entirely empty.
pub open spec fn top_count(s: Seq<ColorModel>) -> int {
    if empty_count(s) == s.len() {
        0
    } else {
        run_len_from(s.skip(empty_count(s)), top_color(s))
    }
}

/// A tube is solved when it is entirely empty or its top color run
/// fills all four slots (full and monochrome).
pub open spec fn spec_solved(s: Seq<ColorModel>) -> bool {
    empty_count(s) == s.len() || top_count(s) == s.len()
}

/// The tube after its top color block has been poured away: the block
/// slots turn empty, everything below is unchanged.
pub open spec fn pour_result(s: Seq<ColorModel>) -> Seq<ColorModel> {
    Seq::new(s.len(), |i: int| if i < empty_count(s) + top_count(s) {
        ColorModel::Empty
    } else {
        s[i]
    })
}

/// Whether `n` layers fit into the tube's free capacity.
pub open spec fn can_add(s: Seq<ColorModel>, n: int) -> bool {
    n <= empty_count(s)
}

/// The tube after `n` layers of color `c` have been stacked onto its
/// liquid: the `n` slots just above the old surface take `c`.
pub open spec fn add_result(s: Seq<ColorModel>, n: int, c: ColorModel) -> Seq<ColorModel> {
    Seq::new(s.len(), |i: int| if empty_count(s) - n <= i < empty_count(s) {
        c
    } else {
        s[i]
    })
}

/// A tube model with all four layers empty.
pub open spec fn empty_tube_model() -> Seq<ColorModel> {
    Seq::new(4, |i: int| ColorModel::Empty)
}

/// `empty_count` names the empty prefix exactly: the layers before it
/// are empty and, unless the whole tube is empty, the layer at it is
/// not.
pub proof fn lemma_empty_count(s: Seq<ColorModel>)
    ensures
        0 <= empty_count(s) <= s.len(),
        forall|i: int| 0 <= i < empty_count(s) ==> s[i] is Empty,
        empty_count(s) < s.len() ==> !(s[empty_count(s)] is Empty),
    decreases s.len(),
{
    if s.len() > 0 && s[0] is Empty {
        lemma_empty_count(s.skip(1));
        assert forall|i: int| 0 <= i < empty_count(s) implies s[i] is Empty by {
            if i > 0 {
                assert(s.skip(1)[i - 1] is Empty);
            }
        }
        if empty_count(s) < s.len() {
            assert(s.skip(1)[empty_count(s) - 1] == s[empty_count(s)]);
        }
    }
}

/// Any prefix of empty layers followed by a non-empty layer (or the
/// end) pins `empty_count` to that prefix's length.
pub proof fn lemma_empty_count_is(s: Seq<ColorModel>, k: int)
    requires
        0 <= k <= s.len(),
        forall|i: int| 0 <= i < k ==> s[i] is Empty,
        k < s.len() ==> !(s[k] is Empty),
    ensures
        empty_count(s) == k,
    decreases s.len(),
{
    if s.len() > 0 && s[0] is Empty {
        assert forall|i: int| 0 <= i < k - 1 implies s.skip(1)[i] is Empty by {
            assert(s.skip(1)[i] == s[i + 1]);
        }
        if k - 1 < s.len() - 1 {
            assert(s.skip(1)[k - 1] == s[k]);
        }
        lemma_empty_count_is(s.skip(1), k - 1);
    }
}

/// `run_len_from` names the run exactly: the layers before it equal
/// `c` and, unless the run spans everything, the layer at it does not.
pub proof fn lemma_run_len(s: Seq<ColorModel>, c: ColorModel)
    ensures
        0 <= run_len_from(s, c) <= s.len(),
        forall|i: int| 0 <= i < run_len_from(s, c) ==> s[i] == c,
        run_len_from(s, c) < s.len() ==> s[run_len_from(s, c)] != c,
    decreases s.len(),
{
    if s.len() > 0 && s[0] == c {
        lemma_run_len(s.skip(1), c);
        assert forall|i: int| 0 <= i < run_len_from(s, c) implies s[i] == c by {
            if i > 0 {
                assert(s.skip(1)[i - 1] == s[i]);
            }
        }
        if run_len_from(s, c) < s.len() {
            assert(s.skip(1)[run_len_from(s, c) - 1] == s[run_len_from(s, c)]);
        }
    }
}

/// Any run of `c` followed by a different layer (or the end) pins
/// `run_len_from` to that run's length.
pub proof fn lemma_run_len_is(s: Seq<ColorModel>, c: ColorModel, k: int)
    requires
        0 <= k <= s.len(),
        forall|i: int| 0 <= i < k ==> s[i] == c,
        k < s.len() ==> s[k] != c,
    ensures
        run_len_from(s, c) == k,
    decreases s.len(),
{
    if s.len() > 0 && s[0] == c {
        assert forall|i: int| 0 <= i < k - 1 implies s.skip(1)[i] == c by {
            assert(s.skip(1)[i] == s[i + 1]);
        }
        if k - 1 < s.len() - 1 {
            assert(s.skip(1)[k - 1] == s[k]);
        }
        lemma_run_len_is(s.skip(1), c, k - 1);
    }
}

/// The combined shape of the top of a well-formed tube: `empty_count`
/// empty layers, then a `top_count` run of `top_color`, then (if
/// anything follows) a layer of some other color.
pub proof fn lemma_top_shape(s: Seq<ColorModel>)
    requires
        tube_wf(s),
    ensures
        0 <= empty_count(s),
        empty_count(s) + top_count(s) <= s.len(),
        forall|i: int| 0 <= i < empty_count(s) ==> s[i] is Empty,
        empty_count(s) < s.len() ==> top_count(s) >= 1,
        empty_count(s) < s.len() ==> !(top_color(s) is Empty),
        forall|i: int|
            empty_count(s) <= i < empty_count(s) + top_count(s) ==> s[i] == top_color(s),
        empty_count(s) + top_count(s) < s.len() ==> s[empty_count(s) + top_count(s)]
            != top_color(s),
{
    lemma_empty_count(s);
    let k = empty_count(s);
    if k < s.len() {
        let c = top_color(s);
        let rest = s.skip(k);
        lemma_run_len(rest, c);
        assert(rest[0] == s[k]);
        let n = run_len_from(rest, c);
        assert forall|i: int| k <= i < k + n implies s[i] == c by {
            assert(rest[i - k] == s[i]);
        }
        if k + n < s.len() {
            assert(rest[n] == s[k + n]);
        }
    }
}

} // verus!

verus! {

/// A fixed-capacity stack of four liquid layers, top at index 0.
/// Values are immutable: every transformation returns a new `Tube`.
/// The constructors refuse layer arrangements that violate the
/// physical invariant, so a `Tube` in circulation is well formed.
#[derive(Debug, Clone, PartialEq)]
pub struct Tube {
    layers: Vec<LiquidColor>,
}

impl View for Tube {
    type V = Seq<ColorModel>;

    closed spec fn view(&self) -> Seq<ColorModel> {
        self.layers@.map_values(|c: LiquidColor| c@)
    }
}

/// Whether four layers, given top first, make a well-formed tube.
fn check_layers(layers: &Vec<LiquidColor>) -> (r: bool)
    requires
        layers@.len() == 4,
    ensures
        r == tube_wf(layers@.map_values(|c: LiquidColor| c@)),
{
    let ghost s = layers@.map_values(|c: LiquidColor| c@);
    let mut seen_liquid = false;
    let mut i: usize = 0;
    while i < 4
        invariant
            0 <= i <= 4,
            layers@.len() == 4,
            s == layers@.map_values(|c: LiquidColor| c@),
            seen_liquid == exists|j: int| 0 <= j < i && !(s[j] is Empty),
            forall|j: int, k: int| 0 <= j <= k < i && s[k] is Empty ==> s[j] is Empty,
        decreases 4 - i,
    {
        let empty_here = layers[i].is_empty_layer();
        assert(s[i as int] == layers@[i as int]@);
        if empty_here {
            if seen_liquid {
                proof {
                    let j = choose|j: int| 0 <= j < i && !(s[j] is Empty);
                    assert(!(s[j] is Empty) && s[i as int] is Empty && j <= i);
                }
                return false;
            }
        } else {
            seen_liquid = true;
        }
        i += 1;
    }
    true
}

impl Tube {
    /// Builds a tube from its four layers, listed top first. Returns
    /// `None` when the arrangement is physically impossible (liquid
    /// above an empty slot) instead of producing the malformed value.
    pub fn new(
        layer3: LiquidColor,
        layer2: LiquidColor,
        layer1: LiquidColor,
        layer0: LiquidColor,
    ) -> (r: Option<Tube>)
        ensures
            ({
                let s = seq![layer3@, layer2@, layer1@, layer0@];
                match r {
                    Some(t) => tube_wf(s) && t@ == s,
                    None => !tube_wf(s),
                }
            }),
    {
        let ghost s = seq![layer3@, layer2@, layer1@, layer0@];
        let mut layers: Vec<LiquidColor> = Vec::new();
        layers.push(layer3);
        layers.push(layer2);
        layers.push(layer1);
        layers.push(layer0);
        assert(layers@.map_values(|c: LiquidColor| c@) =~= s);
        if check_layers(&layers) {
            Some(Tube { layers })
        } else {
            None
        }
    }

    /// Well-formedness of the tube's model.
    pub open spec fn wf(&self) -> bool {
        tube_wf(self@)
    }

    /// A fresh tube with the same model.
    pub fn duplicate(&self) -> (r: Tube)
        ensures
            r@ == self@,
    {
        let mut layers: Vec<LiquidColor> = Vec::new();
        let mut i: usize = 0;
        while i < self.layers.len()
            invariant
                0 <= i <= self.layers@.len(),
                layers@.len() == i,
                forall|j: int| 0 <= j < i ==> layers@[j]@ == self.layers@[j]@,
            decreases self.layers@.len() - i,
        {
            layers.push(self.layers[i].duplicate());
            i += 1;
        }
        let r = Tube { layers };
        assert(r@ =~= self@);
        r
    }

    /// Structural equality on the tube model.
    pub fn same_tube(&self, other: &Tube) -> (r: bool)
        ensures
            r == (self@ == other@),
    {
        if self.layers.len() != other.layers.len() {
            assert(self@.len() != other@.len());
            return false;
        }
        let mut i: usize = 0;
        while i < self.layers.len()
            invariant
                0 <= i <= self.layers@.len(),
                self.layers@.len() == other.layers@.len(),
                forall|j: int| 0 <= j < i ==> self@[j] == other@[j],
            decreases self.layers@.len() - i,
        {
            let agree = self.layers[i].same_color(&other.layers[i]);
            assert(self@[i as int] == self.layers@[i as int]@);
            assert(other@[i as int] == other.layers@[i as int]@);
            if !agree {
                return false;
            }
            i += 1;
        }
        assert(self@ =~= other@);
        true
    }

    /// The number of contiguous empty layers at the top: the tube's
    /// free capacity.
    pub fn howempty(&self) -> (r: i32)
        requires
            self.wf(),
        ensures
            r as int == empty_count(self@),
            0 <= r <= 4,
    {
        proof {
            lemma_empty_count(self@);
        }
        let mut i: usize = 0;
        while i < 4
            invariant
                self.wf(),
                0 <= i <= 4,
                forall|j: int| 0 <= j < i ==> self@[j] is Empty,
            decreases 4 - i,
        {
            if !self.layers[i].is_empty_layer() {
                proof {
                    lemma_empty_count_is(self@, i as int);
                }
                return i as i32;
            }
            i += 1;
        }
        proof {
            lemma_empty_count_is(self@, 4);
        }
        4
    }

    /// True when every layer of the tube is empty.
    pub fn isempty(&self) -> (r: bool)
        requires
            self.wf(),
        ensures
            r == (empty_count(self@) == 4),
    {
        4 == self.howempty()
    }

    /// The volume and color of the top block of liquid: the length of
    /// the maximal same-colored run at the liquid's surface, and its
    /// color. An entirely empty tube reports `(0, Empty)`.
    pub fn topcolor(&self) -> (r: (i32, LiquidColor))
        requires
            self.wf(),
        ensures
            r.0 as int == top_count(self@),
            r.1@ == top_color(self@),
            0 <= r.0 <= 4,
    {
        proof {
            lemma_top_shape(self@);
        }
        let k = self.howempty();
        if k == 4 {
            return (0, LiquidColor::Empty);
        }
        let start = k as usize;
        let color = self.layers[start].duplicate();
        let ghost rest = self@.skip(start as int);
        let mut i: usize = start + 1;
        while i < 4
            invariant
                self.wf(),
                rest == self@.skip(start as int),
                start as int == empty_count(self@),
                0 <= start < i <= 4,
                color@ == top_color(self@),
                forall|j: int| start <= j < i ==> self@[j] == color@,
            decreases 4 - i,
        {
            if !self.layers[i].same_color(&color) {
                proof {
                    assert forall|j: int| 0 <= j < i - start implies rest[j] == color@ by {
                        assert(rest[j] == self@[start + j]);
                    }
                    assert(rest[i - start] == self@[i as int]);
                    lemma_run_len_is(rest, color@, i - start as int);
                }
                return ((i - start) as i32, color);
            }
            i += 1;
        }
        proof {
            assert forall|j: int| 0 <= j < 4 - start implies rest[j] == color@ by {
                assert(rest[j] == self@[start + j]);
            }
            lemma_run_len_is(rest, color@, 4 - start as int);
        }
        ((4 - start) as i32, color)
    }

    /// True when the tube is solved: entirely empty, or full of a
    /// single color.
    pub fn issolved(&self) -> (r: bool)
        requires
            self.wf(),
        ensures
            r == spec_solved(self@),
    {
        let empty_layers = self.howempty();
        let (color_count, _top_color) = self.topcolor();
        empty_layers == 4 || color_count == 4
    }

    /// The tube after its top color block has been poured away.
    pub fn pourtube(&self) -> (r: Tube)
        requires
            self.wf(),
        ensures
            r@ == pour_result(self@),
            r.wf(),
    {
        proof {
            lemma_top_shape(self@);
        }
        let empty_layers = self.howempty();
        let (color_count, _color) = self.topcolor();
        let end = (empty_layers + color_count) as usize;
        let mut layers: Vec<LiquidColor> = Vec::new();
        let mut i: usize = 0;
        while i < 4
            invariant
                self.wf(),
                0 <= i <= 4,
                end == empty_count(self@) + top_count(self@),
                end <= 4,
                layers@.len() == i,
                forall|j: int| 0 <= j < i && j < end ==> layers@[j]@ == ColorModel::Empty,
                forall|j: int| end <= j < i ==> layers@[j]@ == self@[j],
            decreases 4 - i,
        {
            if i < end {
                layers.push(LiquidColor::Empty);
            } else {
                layers.push(self.layers[i].duplicate());
            }
            i += 1;
        }
        let r = Tube { layers };
        assert(r@ =~= pour_result(self@));
        assert(tube_wf(r@)) by {
            assert(forall|j: int| 0 <= j < end ==> r@[j] is Empty);
            assert forall|a: int, b: int|
                0 <= a <= b < 4 && r@[b] is Empty implies r@[a] is Empty by {
                if b >= end {
                    assert(r@[b] == self@[b]);
                    if a >= end {
                        assert(self@[a] is Empty);
                    }
                }
            }
        }
        r
    }

    /// Attempts to stack `color_count` layers of `color` onto the
    /// liquid. Fails (leaving an all-empty placeholder tube in the
    /// result) exactly when the free capacity is too small.
    pub fn addcolor(&self, color_count: i32, color: LiquidColor) -> (r: (bool, Tube))
        requires
            self.wf(),
        ensures
            r.0 == can_add(self@, color_count as int),
            r.0 ==> r.1@ == add_result(self@, color_count as int, color@),
            r.0 && (color_count <= 0 || !(color@ is Empty)) ==> r.1.wf(),
            !r.0 ==> r.1@ == empty_tube_model(),
    {
        proof {
            lemma_top_shape(self@);
        }
        let empty_layers = self.howempty();
        if color_count > empty_layers {
            let r = Self::empty_tube();
            return (false, r);
        }
        let lo: usize = if color_count >= 0 {
            (empty_layers - color_count) as usize
        } else {
            empty_layers as usize
        };
        let hi = empty_layers as usize;
        let mut layers: Vec<LiquidColor> = Vec::new();
        let mut i: usize = 0;
        while i < 4
            invariant
                self.wf(),
                0 <= i <= 4,
                lo as int == if color_count >= 0 {
                    empty_count(self@) - color_count as int
                } else {
                    empty_count(self@)
                },
                hi as int == empty_count(self@),
                lo <= hi <= 4,
                layers@.len() == i,
                forall|j: int| 0 <= j < i && lo <= j < hi ==> layers@[j]@ == color@,
                forall|j: int| 0 <= j < i && !(lo <= j < hi) ==> layers@[j]@ == self@[j],
            decreases 4 - i,
        {
            if lo <= i && i < hi {
                layers.push(color.duplicate());
            } else {
                layers.push(self.layers[i].duplicate());
            }
            i += 1;
        }
        let r = Tube { layers };
        assert(r@ =~= add_result(self@, color_count as int, color@));
        proof {
            if color_count <= 0 || !(color@ is Empty) {
                lemma_empty_count(self@);
                assert forall|a: int, b: int|
                    0 <= a <= b < 4 && r@[b] is Empty implies r@[a] is Empty by {
                    assert(forall|j: int| 0 <= j < lo ==> r@[j] is Empty);
                    if b >= lo {
                        if lo <= b < hi {
                            assert(!(r@[b] is Empty));
                        } else {
                            assert(r@[b] == self@[b]);
                            assert(b >= hi);
                            assert(!(self@[b] is Empty));
                        }
                    }
                }
            }
        }
        (true, r)
    }

    /// A tube with all four layers empty.
    pub fn empty_tube() -> (r: Tube)
        ensures
            r@ == empty_tube_model(),
            r.wf(),
    {
        let mut layers: Vec<LiquidColor> = Vec::new();
        layers.push(LiquidColor::Empty);
        layers.push(LiquidColor::Empty);
        layers.push(LiquidColor::Empty);
        layers.push(LiquidColor::Empty);
        let r = Tube { layers };
        assert(r@ =~= empty_tube_model());
        r
    }
}

} // verus!

verus! {

/// A short layer list, top first, padded with empty slots on top to
/// the full four layers.
pub open spec fn padded_model(s: Seq<ColorModel>) -> Seq<ColorModel> {
    Seq::new(4, |i: int| if i < 4 - s.len() {
        ColorModel::Empty
    } else {
        s[i - (4 - s.len())]
    })
}

impl Tube {
    /// Builds a tube from a list of up to four layers, top first;
    /// shorter lists leave the topmost slots empty. Returns `None`
    /// when more than four layers are supplied or the arrangement is
    /// physically impossible.
    pub fn from_vec(vec: Vec<LiquidColor>) -> (r: Option<Tube>)
        ensures
            ({
                let dv = vec@.map_values(|c: LiquidColor| c@);
                if dv.len() > 4 {
                    r is None
                } else {
                    match r {
                        Some(t) => tube_wf(padded_model(dv)) && t@ == padded_model(dv),
                        None => !tube_wf(padded_model(dv)),
                    }
                }
            }),
    {
        let ghost dv = vec@.map_values(|c: LiquidColor| c@);
        if vec.len() > 4 {
            return None;
        }
        let pad = 4 - vec.len();
        let mut layers: Vec<LiquidColor> = Vec::new();
        let mut i: usize = 0;
        while i < pad
            invariant
                0 <= i <= pad,
                pad == 4 - dv.len(),
                layers@.len() == i,
                forall|j: int| 0 <= j < i ==> layers@[j]@ == ColorModel::Empty,
            decreases pad - i,
        {
            layers.push(LiquidColor::Empty);
            i += 1;
        }
        let mut k: usize = 0;
        while k < vec.len()
            invariant
                0 <= k <= vec@.len(),
                dv == vec@.map_values(|c: LiquidColor| c@),
                pad == 4 - dv.len(),
                layers@.len() == pad + k,
                forall|j: int| 0 <= j < pad ==> layers@[j]@ == ColorModel::Empty,
                forall|j: int| pad <= j < pad + k ==> layers@[j]@ == dv[j - pad],
            decreases vec@.len() - k,
        {
            layers.push(vec[k].duplicate());
            k += 1;
        }
        assert(layers@.map_values(|c: LiquidColor| c@) =~= padded_model(dv));
        if check_layers(&layers) {
            Some(Tube { layers })
        } else {
            None
        }
    }

    /// The tube's four layers as a list, top first.
    pub fn to_vec(&self) -> (r: Vec<LiquidColor>)
        ensures
            r@.map_values(|c: LiquidColor| c@) == self@,
    {
        let mut out: Vec<LiquidColor> = Vec::new();
        let mut i: usize = 0;
        while i < self.layers.len()
            invariant
                0 <= i <= self.layers@.len(),
                out@.len() == i,
                forall|j: int| 0 <= j < i ==> out@[j]@ == self.layers@[j]@,
            decreases self.layers@.len() - i,
        {
            out.push(self.layers[i].duplicate());
            i += 1;
        }
        assert(out@.map_values(|c: LiquidColor| c@) =~= self@);
        out
    }
}

/// A tube is solved exactly when it is empty or its top color block
/// counts four layers: `issolved` agrees with `isempty` and
/// `topcolor` in that way on every well-formed tube.
pub proof fn lemma_issolved_characterization(
    t: Tube,
    solved: bool,
    empty: bool,
    top: (i32, LiquidColor),
)
    requires
        t.wf(),
        call_ensures(Tube::issolved, (&t,), solved),
        call_ensures(Tube::isempty, (&t,), empty),
        call_ensures(Tube::topcolor, (&t,), top),
    ensures
        solved == (empty || top.0 == 4),
{
}

} // verus!
