use tubes::LiquidColor;
use tubes::Tube;
use tubes::transfer;

#[test]
fn test_empty_transfer() {
    let tube1 = Tube::new(
        LiquidColor::Empty,
        LiquidColor::Empty,
        LiquidColor::Empty,
        LiquidColor::Empty,
    )
    .unwrap();
    let tube2 = Tube::new(
        LiquidColor::Empty,
        LiquidColor::Empty,
        LiquidColor::Empty,
        LiquidColor::Empty,
    )
    .unwrap();
    let transfer_result = transfer(tube1, tube2);
    let transfer_success = transfer_result.success;
    assert_eq!(transfer_success, false);
}

#[test]
fn test_half_to_empty_transfer() {
    let tube1 = Tube::new(
        LiquidColor::Empty,
        LiquidColor::Empty,
        LiquidColor::Orange,
        LiquidColor::Orange,
    )
    .unwrap();
    let tube2 = Tube::new(
        LiquidColor::Empty,
        LiquidColor::Empty,
        LiquidColor::Empty,
        LiquidColor::Empty,
    )
    .unwrap();
    let transfer_result = transfer(tube1.clone(), tube2.clone());
    assert_eq!(transfer_result.success, true);
    assert_eq!(transfer_result.send_tube, tube2);
    assert_eq!(transfer_result.recieve_tube, tube1);
}

#[test]
fn test_empty_to_half_transfer() {
    let tube1 = Tube::new(
        LiquidColor::Empty,
        LiquidColor::Empty,
        LiquidColor::Empty,
        LiquidColor::Empty,
    )
    .unwrap();
    let tube2 = Tube::new(
        LiquidColor::Empty,
        LiquidColor::Empty,
        LiquidColor::Orange,
        LiquidColor::Orange,
    )
    .unwrap();
    let transfer_result = transfer(tube1, tube2);
    assert_eq!(transfer_result.success, false);
}

#[test]
fn test_orange_to_blue_transfer() {
    let tube1 = Tube::new(
        LiquidColor::Empty,
        LiquidColor::Empty,
        LiquidColor::Orange,
        LiquidColor::Orange,
    )
    .unwrap();
    let tube2 = Tube::new(
        LiquidColor::Empty,
        LiquidColor::Empty,
        LiquidColor::Blue,
        LiquidColor::Blue,
    )
    .unwrap();
    let transfer_result = transfer(tube1, tube2);
    assert_eq!(transfer_result.success, false);
}

#[test]
fn failed_transfer_returns_originals_unchanged() {
    let send = Tube::new(
        LiquidColor::Empty,
        LiquidColor::Empty,
        LiquidColor::Orange,
        LiquidColor::Orange,
    )
    .unwrap();
    let recv = Tube::new(
        LiquidColor::Blue,
        LiquidColor::Blue,
        LiquidColor::Blue,
        LiquidColor::Blue,
    )
    .unwrap();
    let result = transfer(send.clone(), recv.clone());
    assert_eq!(result.success, false);
    assert_eq!(result.send_tube, send);
    assert_eq!(result.recieve_tube, recv);
}

#[test]
fn repeated_transfer_gives_same_result() {
    let send = Tube::new(
        LiquidColor::Empty,
        LiquidColor::Empty,
        LiquidColor::Orange,
        LiquidColor::Orange,
    )
    .unwrap();
    let recv = Tube::new(
        LiquidColor::Empty,
        LiquidColor::Empty,
        LiquidColor::Blue,
        LiquidColor::Blue,
    )
    .unwrap();
    let first = transfer(send.clone(), recv.clone());
    let second = transfer(send.clone(), recv.clone());
    assert_eq!(first.success, second.success);
    assert_eq!(first.send_tube, second.send_tube);
    assert_eq!(first.recieve_tube, second.recieve_tube);
    assert_eq!(first.success, false);
    assert_eq!(second.send_tube, send);
    assert_eq!(second.recieve_tube, recv);
}

#[test]
fn cross_color_conflict_over_three_tubes() {
    let tube_a = Tube::new(
        LiquidColor::Empty,
        LiquidColor::Empty,
        LiquidColor::Orange,
        LiquidColor::Orange,
    )
    .unwrap();
    let tube_b = Tube::new(
        LiquidColor::Empty,
        LiquidColor::Empty,
        LiquidColor::Blue,
        LiquidColor::Blue,
    )
    .unwrap();
    let tube_c = Tube::empty_tube();
    assert!(!transfer(tube_a.clone(), tube_b.clone()).success);
    assert!(transfer(tube_a.clone(), tube_c.clone()).success);
    assert!(transfer(tube_b.clone(), tube_c.clone()).success);
}

#[test]
fn whole_top_block_moves_or_nothing() {
    // The sender's top block has two layers but the receiver has only
    // one free slot: the pour must fail outright, not move one layer.
    let send = Tube::new(
        LiquidColor::Empty,
        LiquidColor::Empty,
        LiquidColor::Orange,
        LiquidColor::Orange,
    )
    .unwrap();
    let recv = Tube::new(
        LiquidColor::Empty,
        LiquidColor::Orange,
        LiquidColor::Orange,
        LiquidColor::Orange,
    )
    .unwrap();
    let result = transfer(send.clone(), recv.clone());
    assert_eq!(result.success, false);
    assert_eq!(result.send_tube, send);
    assert_eq!(result.recieve_tube, recv);
}
