use queens::model::generator::{generate_layout, try_generate_layout};
use queens::model::layout::{
    check_partition, complex_layout, easy_layout, section, Area, Layout,
};

#[test]
fn section_carries_its_range() {
    let s = section(3, 8);
    assert_eq!(s.start, 3);
    assert_eq!(s.end, 8);
}

#[test]
fn area_from_sections_flattens_in_order() {
    let a = Area::from_sections(vec![section(0, 3), section(5, 6)], 2);
    assert_eq!(a.get_sections(), &vec![0, 1, 2, 5]);
    assert_eq!(a.get_color(), 2);
}

#[test]
fn area_from_usize_is_one_cell() {
    let a = Area::from_usize(42, 7);
    assert_eq!(a.get_sections(), &vec![42]);
    assert_eq!(a.get_color(), 7);
}

#[test]
fn easy_layout_is_row_bands() {
    let l = easy_layout();
    assert_eq!(l.get_areas().len(), 10);
    for (i, area) in l.get_areas().iter().enumerate() {
        assert_eq!(area.get_color(), i as u8);
        let expected: Vec<usize> = (i * 10..(i + 1) * 10).collect();
        assert_eq!(area.get_sections(), &expected);
    }
    assert!(check_partition(&l, 10));
}

#[test]
fn complex_layout_is_a_partition() {
    let l = complex_layout();
    assert_eq!(l.get_areas().len(), 10);
    assert!(check_partition(&l, 10));
}

#[test]
fn complex_layout_template_cells() {
    let l = complex_layout();
    // spot checks against the hand-authored template
    assert_eq!(l.get_area(0).unwrap().get_color(), 0);
    assert_eq!(l.get_area(19).unwrap().get_color(), 0);
    assert_eq!(l.get_area(99).unwrap().get_color(), 0);
    assert_eq!(l.get_area(10).unwrap().get_color(), 1);
    assert_eq!(l.get_area(13).unwrap().get_color(), 3);
    assert_eq!(l.get_area(43).unwrap().get_color(), 4);
    assert_eq!(l.get_area(45).unwrap().get_color(), 5);
    assert_eq!(l.get_area(40).unwrap().get_color(), 6);
    assert_eq!(l.get_area(72).unwrap().get_color(), 7);
    assert_eq!(l.get_area(64).unwrap().get_color(), 8);
    assert_eq!(l.get_area(98).unwrap().get_color(), 9);
}

#[test]
fn get_area_fails_off_the_layout() {
    let l = Layout { areas: vec![Area::from_usize(0, 0)] };
    assert!(l.get_area(0).is_ok());
    assert!(l.get_area(1).is_err());
}

#[test]
fn generated_layout_is_a_partition() {
    let l = generate_layout();
    assert_eq!(l.get_areas().len(), 10);
    assert!(check_partition(&l, 10));
    for (i, area) in l.get_areas().iter().enumerate() {
        assert_eq!(area.get_color(), i as u8);
        assert!(!area.get_sections().is_empty());
    }
}

fn diag_adjacent(a: usize, b: usize) -> bool {
    (a % 10 != 9 && b == a + 11) || (a % 10 != 0 && b == a + 9)
}

#[test]
fn generated_seeds_do_not_attack() {
    let mut produced = None;
    for _ in 0..100 {
        if let Some(l) = try_generate_layout() {
            produced = Some(l);
            break;
        }
    }
    let l = produced.expect("no attempt produced a layout");
    assert!(check_partition(&l, 10));
    let seeds: Vec<usize> = l.get_areas().iter().map(|a| a.get_sections()[0]).collect();
    for i in 0..10 {
        for j in 0..10 {
            if i != j {
                assert_ne!(seeds[i] / 10, seeds[j] / 10, "two seeds share a row");
                assert_ne!(seeds[i] % 10, seeds[j] % 10, "two seeds share a column");
                assert!(!diag_adjacent(seeds[i], seeds[j]), "two seeds touch diagonally");
            }
        }
    }
}

fn expected_template_color(c: usize) -> u8 {
    // the template's color map, cell by cell
    if c < 10 || (c >= 19 && c % 10 == 9) {
        0
    } else if (10..13).contains(&c) || (20..23).contains(&c) || (30..35).contains(&c) {
        1
    } else if c == 27 || c == 37 || (47..49).contains(&c) || (54..59).contains(&c)
        || (65..69).contains(&c) || c == 78
    {
        2
    } else if (13..19).contains(&c) || (23..27).contains(&c) || c == 28 || c == 35 || c == 38 {
        3
    } else if (43..45).contains(&c) {
        4
    } else if c == 36 || (45..47).contains(&c) {
        5
    } else if (40..43).contains(&c) || (50..54).contains(&c) || (60..64).contains(&c)
        || (70..72).contains(&c) || (80..85).contains(&c) || (90..95).contains(&c)
    {
        6
    } else if (72..74).contains(&c) {
        7
    } else if c == 64 || (74..78).contains(&c) || (85..89).contains(&c)
        || (95..98).contains(&c)
    {
        8
    } else {
        9
    }
}

#[test]
fn complex_layout_matches_the_template_everywhere() {
    let l = complex_layout();
    for c in 0..100 {
        assert_eq!(
            l.get_area(c).unwrap().get_color(),
            expected_template_color(c),
            "cell {} has the wrong template color",
            c
        );
    }
}

#[test]
fn generated_areas_repeat_no_cell() {
    let l = generate_layout();
    for area in l.get_areas() {
        let cells = area.get_sections();
        for i in 0..cells.len() {
            for j in 0..cells.len() {
                if i != j {
                    assert_ne!(cells[i], cells[j], "an area lists one cell twice");
                }
            }
        }
    }
}
