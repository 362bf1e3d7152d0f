use tubes::LiquidColor;
use tubes::Tube;
use tubes::color::color_from_name;
use tubes::color::color_name;

#[test]
fn empty_and_half_tubes_report_emptiness() {
    let empty_tube = Tube::new(
        LiquidColor::Empty,
        LiquidColor::Empty,
        LiquidColor::Empty,
        LiquidColor::Empty,
    )
    .unwrap();
    let half_tube = Tube::new(
        LiquidColor::Empty,
        LiquidColor::Empty,
        LiquidColor::Orange,
        LiquidColor::Orange,
    )
    .unwrap();
    assert_eq!(empty_tube.isempty(), true);
    assert_eq!(half_tube.isempty(), false);
    assert_eq!(empty_tube.howempty(), 4);
    assert_eq!(half_tube.howempty(), 2);
}

#[test]
fn topcolor_reports_the_top_run() {
    let tube1 = Tube::new(
        LiquidColor::Blue,
        LiquidColor::Orange,
        LiquidColor::Blue,
        LiquidColor::Orange,
    )
    .unwrap();
    let tube2 = Tube::new(
        LiquidColor::Blue,
        LiquidColor::Blue,
        LiquidColor::Orange,
        LiquidColor::Orange,
    )
    .unwrap();
    assert_eq!(tube1.topcolor(), (1, LiquidColor::Blue));
    assert_eq!(tube2.topcolor(), (2, LiquidColor::Blue));
    let all_empty = Tube::empty_tube();
    assert_eq!(all_empty.topcolor(), (0, LiquidColor::Empty));
}

#[test]
fn solved_means_empty_or_full_of_one_color() {
    let empty_tube = Tube::empty_tube();
    let full_tube = Tube::new(
        LiquidColor::Green,
        LiquidColor::Green,
        LiquidColor::Green,
        LiquidColor::Green,
    )
    .unwrap();
    let half_tube = Tube::new(
        LiquidColor::Empty,
        LiquidColor::Empty,
        LiquidColor::Green,
        LiquidColor::Green,
    )
    .unwrap();
    let mixed_tube = Tube::new(
        LiquidColor::Blue,
        LiquidColor::Green,
        LiquidColor::Green,
        LiquidColor::Green,
    )
    .unwrap();
    assert!(empty_tube.issolved());
    assert!(full_tube.issolved());
    assert!(!half_tube.issolved());
    assert!(!mixed_tube.issolved());
}

#[test]
fn gapped_construction_is_refused() {
    // A gap in the liquid can never be "repaired": construction fails.
    let gapped = Tube::new(
        LiquidColor::Orange,
        LiquidColor::Empty,
        LiquidColor::Orange,
        LiquidColor::Empty,
    );
    assert!(gapped.is_none());
    let floating = Tube::new(
        LiquidColor::Orange,
        LiquidColor::Empty,
        LiquidColor::Empty,
        LiquidColor::Empty,
    );
    assert!(floating.is_none());
}

#[test]
fn from_vec_pads_short_lists_and_rejects_long_ones() {
    let expected = Tube::new(
        LiquidColor::Blue,
        LiquidColor::Blue,
        LiquidColor::Red,
        LiquidColor::Orange,
    )
    .unwrap();
    let actual = Tube::from_vec(vec![
        LiquidColor::Blue,
        LiquidColor::Blue,
        LiquidColor::Red,
        LiquidColor::Orange,
    ])
    .unwrap();
    assert_eq!(expected, actual);
    assert_eq!(actual.topcolor().1, LiquidColor::Blue);

    let expected_short = Tube::new(
        LiquidColor::Empty,
        LiquidColor::Empty,
        LiquidColor::Empty,
        LiquidColor::Orange,
    )
    .unwrap();
    let actual_short = Tube::from_vec(vec![LiquidColor::Orange]).unwrap();
    assert_eq!(expected_short, actual_short);
    assert_eq!(actual_short.howempty(), 3);
    assert_eq!(actual_short.topcolor().1, LiquidColor::Orange);

    let too_long = Tube::from_vec(vec![
        LiquidColor::Orange,
        LiquidColor::Orange,
        LiquidColor::Orange,
        LiquidColor::Orange,
        LiquidColor::Orange,
    ]);
    assert!(too_long.is_none());

    let gapped = Tube::from_vec(vec![
        LiquidColor::Orange,
        LiquidColor::Empty,
        LiquidColor::Orange,
        LiquidColor::Empty,
    ]);
    assert!(gapped.is_none());
}

#[test]
fn to_vec_lists_the_layers_top_first() {
    let tube = Tube::new(
        LiquidColor::Empty,
        LiquidColor::Pink,
        LiquidColor::Pink,
        LiquidColor::Red,
    )
    .unwrap();
    assert_eq!(
        tube.to_vec(),
        vec![
            LiquidColor::Empty,
            LiquidColor::Pink,
            LiquidColor::Pink,
            LiquidColor::Red,
        ]
    );
}

#[test]
fn sampled_pixels_classify_by_grayness() {
    assert_eq!(LiquidColor::new(128, 128, 128), LiquidColor::Empty);
    assert_eq!(LiquidColor::new(0, 0, 0), LiquidColor::Empty);
    assert_eq!(
        LiquidColor::new(0x01, 0x02, 0x03),
        LiquidColor::Other(String::from("010203"))
    );
    assert_eq!(
        LiquidColor::new(0xe8, 0x8c, 0x42),
        LiquidColor::Other(String::from("e88c42"))
    );
}

#[test]
fn color_names_round_trip() {
    let named = vec![
        (LiquidColor::Empty, "empty"),
        (LiquidColor::Orange, "orange"),
        (LiquidColor::Blue, "blue"),
        (LiquidColor::Red, "red"),
        (LiquidColor::Pink, "pink"),
        (LiquidColor::Green, "green"),
    ];
    for (color, name) in named {
        assert_eq!(color_name(&color), name.to_string());
        assert_eq!(color_from_name(name.to_string()), color);
    }
    assert_eq!(
        color_from_name(String::from("purple")),
        LiquidColor::Other(String::from("purple"))
    );
    assert_eq!(
        color_name(&LiquidColor::Other(String::from("purple"))),
        String::from("purple")
    );
}

#[test]
fn addcolor_and_pourtube_move_whole_blocks() {
    let tube = Tube::new(
        LiquidColor::Empty,
        LiquidColor::Empty,
        LiquidColor::Orange,
        LiquidColor::Blue,
    )
    .unwrap();
    let (ok, grown) = tube.addcolor(2, LiquidColor::Orange);
    assert!(ok);
    assert_eq!(
        grown,
        Tube::new(
            LiquidColor::Orange,
            LiquidColor::Orange,
            LiquidColor::Orange,
            LiquidColor::Blue,
        )
        .unwrap()
    );
    let (too_much, placeholder) = tube.addcolor(3, LiquidColor::Orange);
    assert!(!too_much);
    assert_eq!(placeholder, Tube::empty_tube());
    let poured = grown.pourtube();
    assert_eq!(
        poured,
        Tube::new(
            LiquidColor::Empty,
            LiquidColor::Empty,
            LiquidColor::Empty,
            LiquidColor::Blue,
        )
        .unwrap()
    );
}
