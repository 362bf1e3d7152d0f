//! An ordered collection of tubes: the position of a tube is the
//! address that pour actions use, and the whole puzzle is solved when
//! every tube is solved.
use vstd::prelude::*;
use crate::color::ColorModel;
use crate::color::LiquidColor;
use crate::tube::Tube;
use crate::tube::padded_model;
use crate::tube::spec_solved;
use crate::tube::tube_wf;

verus! {

/// A puzzle state is solved when every tube in it is solved.
pub open spec fn spec_state_solved(v: Seq<Seq<ColorModel>>) -> bool {
    forall|k: int| 0 <= k < v.len() ==> spec_solved(#[trigger] v[k])
}

/// Whether a list of layer lists describes a buildable state: each
/// list holds at most four layers and, once padded with empty slots
/// at the top, makes a well-formed tube.
pub open spec fn layer_lists_ok(v: Seq<Seq<ColorModel>>) -> bool {
    forall|k: int| 0 <= k < v.len() ==> (#[trigger] v[k]).len() <= 4 && tube_wf(
        padded_model(v[k]),
    )
}

/// The state built from a list of layer lists, each padded to four
/// layers.
pub open spec fn state_of_lists(v: Seq<Seq<ColorModel>>) -> Seq<Seq<ColorModel>> {
    v.map_values(|l: Seq<ColorModel>| padded_model(l))
}

/// The tubes of one puzzle, in a fixed, significant order.
#[derive(Debug, Clone, PartialEq)]
pub struct TubeState {
    pub tubes: Vec<Tube>,
}

impl View for TubeState {
    type V = Seq<Seq<ColorModel>>;

    open spec fn view(&self) -> Seq<Seq<ColorModel>> {
        self.tubes@.map_values(|t: Tube| t@)
    }
}

/// A state as plain layer lists, top first in each list: the form in
/// which a puzzle is read in and written out.
#[derive(Debug, Clone, PartialEq)]
pub struct TubeArray {
    pub tubes: Vec<Vec<LiquidColor>>,
}

impl View for TubeArray {
    type V = Seq<Seq<ColorModel>>;

    open spec fn view(&self) -> Seq<Seq<ColorModel>> {
        self.tubes@.map_values(|l: Vec<LiquidColor>| l@.map_values(|c: LiquidColor| c@))
    }
}

impl TubeState {
    /// Every tube in the state is well formed.
    pub open spec fn wf(&self) -> bool {
        forall|k: int| 0 <= k < self@.len() ==> tube_wf(#[trigger] self@[k])
    }

    /// True when every tube is solved: entirely empty or full of one
    /// color.
    pub fn issolved(&self) -> (r: bool)
        requires
            self.wf(),
        ensures
            r == spec_state_solved(self@),
    {
        let mut i: usize = 0;
        while i < self.tubes.len()
            invariant
                self.wf(),
                0 <= i <= self@.len(),
                forall|k: int| 0 <= k < i ==> spec_solved(#[trigger] self@[k]),
            decreases self@.len() - i,
        {
            assert(self@[i as int] == self.tubes@[i as int]@);
            let solved = self.tubes[i].issolved();
            if !solved {
                return false;
            }
            i += 1;
        }
        true
    }

    /// A fresh state with the same model.
    pub fn duplicate(&self) -> (r: TubeState)
        ensures
            r@ == self@,
    {
        let mut tubes: Vec<Tube> = Vec::new();
        let mut i: usize = 0;
        while i < self.tubes.len()
            invariant
                0 <= i <= self.tubes@.len(),
                tubes@.len() == i,
                forall|j: int| 0 <= j < i ==> tubes@[j]@ == self.tubes@[j]@,
            decreases self.tubes@.len() - i,
        {
            tubes.push(self.tubes[i].duplicate());
            i += 1;
        }
        let r = TubeState { tubes };
        assert(r@ =~= self@);
        r
    }

    /// Structural equality on the state model: the same tubes in the
    /// same order.
    pub fn same_state(&self, other: &TubeState) -> (r: bool)
        ensures
            r == (self@ == other@),
    {
        if self.tubes.len() != other.tubes.len() {
            assert(self@.len() != other@.len());
            return false;
        }
        let mut i: usize = 0;
        while i < self.tubes.len()
            invariant
                0 <= i <= self.tubes@.len(),
                self.tubes@.len() == other.tubes@.len(),
                forall|j: int| 0 <= j < i ==> self@[j] == other@[j],
            decreases self.tubes@.len() - i,
        {
            let agree = self.tubes[i].same_tube(&other.tubes[i]);
            assert(self@[i as int] == self.tubes@[i as int]@);
            assert(other@[i as int] == other.tubes@[i as int]@);
            if !agree {
                return false;
            }
            i += 1;
        }
        assert(self@ =~= other@);
        true
    }

    /// Builds a state from plain layer lists, padding each short list
    /// with empty slots at the top. Returns `None` when any list has
    /// more than four layers or padding would not make a well-formed
    /// tube.
    pub fn from_tube_array(tube_array: TubeArray) -> (r: Option<TubeState>)
        ensures
            ({
                match r {
                    Some(s) => layer_lists_ok(tube_array@) && s@ == state_of_lists(tube_array@)
                        && s.wf(),
                    None => !layer_lists_ok(tube_array@),
                }
            }),
    {
        let ghost v = tube_array@;
        let mut tubes: Vec<Tube> = Vec::new();
        let mut i: usize = 0;
        while i < tube_array.tubes.len()
            invariant
                v == tube_array@,
                0 <= i <= v.len(),
                tubes@.len() == i,
                forall|k: int| 0 <= k < i ==> (#[trigger] v[k]).len() <= 4 && tube_wf(
                    padded_model(v[k]),
                ),
                forall|k: int| 0 <= k < i ==> #[trigger] tubes@[k]@ == padded_model(v[k]),
            decreases v.len() - i,
        {
            let colors = duplicate_colors(&tube_array.tubes[i]);
            assert(colors@.map_values(|c: LiquidColor| c@) == v[i as int]);
            match Tube::from_vec(colors) {
                Some(t) => {
                    tubes.push(t);
                },
                None => {
                    assert(!layer_lists_ok(v));
                    return None;
                },
            }
            i += 1;
        }
        let r = TubeState { tubes };
        assert(r@ =~= state_of_lists(v));
        Some(r)
    }

    /// The state as plain layer lists, top first in each list.
    pub fn to_tube_array(&self) -> (r: TubeArray)
        ensures
            r@ == self@,
    {
        let mut lists: Vec<Vec<LiquidColor>> = Vec::new();
        let mut i: usize = 0;
        while i < self.tubes.len()
            invariant
                0 <= i <= self.tubes@.len(),
                lists@.len() == i,
                forall|k: int| 0 <= k < i ==> (#[trigger] lists@[k])@.map_values(
                    |c: LiquidColor| c@,
                ) == self@[k],
            decreases self.tubes@.len() - i,
        {
            let list = self.tubes[i].to_vec();
            assert(self@[i as int] == self.tubes@[i as int]@);
            lists.push(list);
            i += 1;
        }
        let r = TubeArray { tubes: lists };
        assert(r@ =~= self@);
        r
    }
}

/// A fresh list of colors with the same models, element for element.
fn duplicate_colors(v: &Vec<LiquidColor>) -> (r: Vec<LiquidColor>)
    ensures
        r@.map_values(|c: LiquidColor| c@) == v@.map_values(|c: LiquidColor| c@),
{
    let mut out: Vec<LiquidColor> = Vec::new();
    let mut i: usize = 0;
    while i < v.len()
        invariant
            0 <= i <= v@.len(),
            out@.len() == i,
            forall|j: int| 0 <= j < i ==> out@[j]@ == v@[j]@,
        decreases v@.len() - i,
    {
        out.push(v[i].duplicate());
        i += 1;
    }
    assert(out@.map_values(|c: LiquidColor| c@) =~= v@.map_values(|c: LiquidColor| c@));
    out
}

/// Writing a state out as layer lists and reading the lists back
/// yields the state again: the round trip through `to_tube_array`
/// and `from_tube_array` is the identity on well-formed states.
pub proof fn lemma_layer_lists_round_trip(s: TubeState, ta: TubeArray, r: Option<TubeState>)
    requires
        s.wf(),
        call_ensures(TubeState::to_tube_array, (&s,), ta),
        call_ensures(TubeState::from_tube_array, (ta,), r),
    ensures
        match r {
            Some(s2) => s2@ == s@,
            None => false,
        },
{
    assert forall|k: int| 0 <= k < ta@.len() implies (#[trigger] ta@[k]).len() <= 4 && tube_wf(
        padded_model(ta@[k]),
    ) by {
        assert(ta@[k] == s@[k]);
        assert(tube_wf(s@[k]));
        assert(padded_model(ta@[k]) =~= ta@[k]);
    }
    assert(layer_lists_ok(ta@));
    match r {
        Some(s2) => {
            assert forall|k: int| 0 <= k < ta@.len() implies state_of_lists(ta@)[k] == s@[k] by {
                assert(padded_model(ta@[k]) =~= ta@[k]);
            }
            assert(state_of_lists(ta@) =~= s@);
        },
        None => {},
    }
}

} // verus!
