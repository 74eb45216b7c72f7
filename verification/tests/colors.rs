use linux_disk_prune::colors::{centered, detect_truecolor, risk_rgb, set_truecolor, to_256, Cells, Paint, Palette, SAFE};
use linux_disk_prune::rules::Risk;

#[test]
fn palette_256() {
    assert_eq!(to_256((0, 0, 0)), 16);
    assert_eq!(to_256((255, 255, 255)), 231);
    assert_eq!(to_256((255, 0, 0)), 196);
    assert!((232..=255).contains(&to_256((128, 128, 128))));
}

#[test]
fn nearest_step_wins_and_ties_go_down() {
    // 115 lies halfway between the steps 95 and 135.
    assert_eq!(to_256((115, 0, 0)), 16 + 36);
    assert_eq!(to_256((116, 0, 0)), 16 + 72);
    assert_eq!(to_256((8, 8, 8)), 232);
    assert_eq!(to_256((17, 17, 17)), 233);
    assert_eq!(to_256((13, 13, 13)), 232);
}

#[test]
fn first_colour_choice_stands() {
    let mut p = Palette::new();
    assert_eq!(p.paint((1, 2, 3)), Paint::Full(1, 2, 3));
    set_truecolor(&mut p, false);
    assert_eq!(p.paint((255, 0, 0)), Paint::Indexed(196));
    set_truecolor(&mut p, true);
    assert_eq!(p.paint((255, 0, 0)), Paint::Indexed(196));
}

#[test]
fn truecolor_is_detected_from_the_environment() {
    assert!(detect_truecolor("TrueColor", "xterm"));
    assert!(detect_truecolor("24bit", ""));
    assert!(detect_truecolor("", "xterm-direct"));
    assert!(!detect_truecolor("yes", "xterm-256color"));
}

#[test]
fn boxes_are_centered_and_fit() {
    let area = Cells { x: 2, y: 1, width: 80, height: 24 };
    assert_eq!(centered(area, 64, 13), Cells { x: 10, y: 6, width: 64, height: 13 });
    assert_eq!(centered(area, 200, 200), area);
    assert_eq!(risk_rgb(Risk::Safe), SAFE);
}

#[test]
fn no_colour_of_the_palette_is_nearer() {
    let steps = [0i32, 95, 135, 175, 215, 255];
    let colour = |q: i32| {
        if q >= 232 {
            [8 + 10 * (q - 232); 3]
        } else {
            let n = q - 16;
            [steps[(n / 36) as usize], steps[(n / 6 % 6) as usize], steps[(n % 6) as usize]]
        }
    };
    for r in (0..=255u8).step_by(17) {
        for g in (0..=255u8).step_by(15) {
            for b in [r, 3, 200] {
                let off = |q: i32| colour(q).iter().zip([r, g, b]).map(|(x, c)| (x - i32::from(c)).pow(2)).sum::<i32>();
                let got = i32::from(to_256((r, g, b)));
                assert!(got >= 16 && (16..256).all(|q| off(got) <= off(q)), "{r} {g} {b}: {got}");
            }
        }
    }
}
