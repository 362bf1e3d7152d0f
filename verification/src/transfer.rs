//! The pour rule: whether the top color block of one tube may move
//! onto another, and the resulting pair of tubes.
use vstd::prelude::*;
use crate::color::ColorModel;
use crate::tube::Tube;
use crate::tube::add_result;
use crate::tube::can_add;
use crate::tube::empty_count;
use crate::tube::lemma_top_shape;
use crate::tube::pour_result;
use crate::tube::top_color;
use crate::tube::top_count;
use crate::tube::tube_wf;

verus! {

/// Whether the pour from `s` into `r` is legal: `s` holds liquid, the
/// receiving surface is empty or matches the sent color, and the whole
/// top block fits into the receiver's free capacity.
pub open spec fn transfer_ok(s: Seq<ColorModel>, r: Seq<ColorModel>) -> bool {
    &&& empty_count(s) != s.len()
    &&& (top_color(r) == top_color(s) || top_color(r) is Empty)
    &&& can_add(r, top_count(s))
}

/// The sending tube after a legal pour.
pub open spec fn transfer_send_result(s: Seq<ColorModel>) -> Seq<ColorModel> {
    pour_result(s)
}

/// The receiving tube after a legal pour from `s`.
pub open spec fn transfer_recv_result(s: Seq<ColorModel>, r: Seq<ColorModel>) -> Seq<
    ColorModel,
> {
    add_result(r, top_count(s), top_color(s))
}

/// The outcome of one attempted pour. On success the two tubes are
/// the updated pair; on failure they are the untouched originals.
pub struct TubeTransferResult {
    pub success: bool,
    pub send_tube: Tube,
    pub recieve_tube: Tube,
}

/// Attempts to pour the top color block of `send` onto `recv`.
///
/// The pour is all or nothing: it succeeds exactly when `send` holds
/// liquid, the receiving surface is empty or of the same color, and
/// the whole block fits. On failure the returned tubes are the
/// original pair, unchanged.
pub fn transfer(send: Tube, recv: Tube) -> (r: TubeTransferResult)
    requires
        send.wf(),
        recv.wf(),
    ensures
        r.success == transfer_ok(send@, recv@),
        r.send_tube.wf(),
        r.recieve_tube.wf(),
        !r.success ==> r.send_tube@ == send@ && r.recieve_tube@ == recv@,
        r.success ==> r.send_tube@ == transfer_send_result(send@),
        r.success ==> r.recieve_tube@ == transfer_recv_result(send@, recv@),
{
    proof {
        lemma_top_shape(send@);
        lemma_top_shape(recv@);
    }
    if send.isempty() {
        return TubeTransferResult { success: false, send_tube: send, recieve_tube: recv };
    }
    let (send_color_count, send_color) = send.topcolor();
    let (_recv_color_count, recv_color) = recv.topcolor();
    if !recv_color.same_color(&send_color) && !recv_color.is_empty_layer() {
        return TubeTransferResult { success: false, send_tube: send, recieve_tube: recv };
    }
    let new_send = send.pourtube();
    let (recv_success, new_recv) = recv.addcolor(send_color_count, send_color);
    if !recv_success {
        return TubeTransferResult { success: false, send_tube: send, recieve_tube: recv };
    }
    TubeTransferResult { success: true, send_tube: new_send, recieve_tube: new_recv }
}

/// Pouring is a pure function of the two tubes: any two calls of
/// `transfer` on tubes with equal models agree on the success flag
/// and on both resulting tube models. In particular, repeating a
/// failed pour on the unchanged inputs fails the same way and hands
/// back the same tubes again.
pub proof fn lemma_transfer_deterministic(
    send1: Tube,
    recv1: Tube,
    send2: Tube,
    recv2: Tube,
    r1: TubeTransferResult,
    r2: TubeTransferResult,
)
    requires
        send1@ == send2@,
        recv1@ == recv2@,
        call_ensures(transfer, (send1, recv1), r1),
        call_ensures(transfer, (send2, recv2), r2),
    ensures
        r1.success == r2.success,
        r1.send_tube@ == r2.send_tube@,
        r1.recieve_tube@ == r2.recieve_tube@,
{
}

} // verus!
