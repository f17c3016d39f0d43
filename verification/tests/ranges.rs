use markdown_inspector::{
    get_first_subsection, get_section_range, get_subsections, parse_headings, Heading,
};

fn heading(line_number: usize, level: u8, text: &str) -> Heading {
    Heading { line_number, level, text: text.to_string() }
}

fn sample() -> Vec<Heading> {
    vec![
        heading(1, 1, "Title"),
        heading(3, 2, "Intro"),
        heading(6, 3, "Details"),
        heading(9, 3, "More"),
        heading(12, 2, "Usage"),
        heading(15, 4, "Deep"),
        heading(20, 1, "Appendix"),
    ]
}

#[test]
fn test_section_range() {
    let headings = vec![
        Heading {
            line_number: 1,
            level: 1,
            text: "Title".into(),
        },
        Heading {
            line_number: 5,
            level: 2,
            text: "Section 1".into(),
        },
        Heading {
            line_number: 10,
            level: 2,
            text: "Section 2".into(),
        },
    ];

    let (start, end) = get_section_range(&headings, &headings[1]);
    assert_eq!(start, 5);
    assert_eq!(end, Some(10));

    let (start, end) = get_section_range(&headings, &headings[2]);
    assert_eq!(start, 10);
    assert_eq!(end, None);
}

#[test]
fn range_of_two_siblings_under_a_title() {
    let headings = vec![heading(1, 1, "T"), heading(5, 2, "A"), heading(10, 2, "B")];
    assert_eq!(get_section_range(&headings, &headings[0]), (1, None));
    assert_eq!(get_section_range(&headings, &headings[1]), (5, Some(10)));
    assert_eq!(get_section_range(&headings, &headings[2]), (10, None));
}

#[test]
fn section_ends_at_sibling_or_shallower_heading() {
    let headings = sample();
    assert_eq!(get_section_range(&headings, &headings[0]), (1, Some(20)));
    assert_eq!(get_section_range(&headings, &headings[1]), (3, Some(12)));
    assert_eq!(get_section_range(&headings, &headings[2]), (6, Some(9)));
    assert_eq!(get_section_range(&headings, &headings[3]), (9, Some(12)));
    assert_eq!(get_section_range(&headings, &headings[4]), (12, Some(20)));
    assert_eq!(get_section_range(&headings, &headings[5]), (15, Some(20)));
    assert_eq!(get_section_range(&headings, &headings[6]), (20, None));
}

#[test]
fn range_of_a_heading_outside_the_list() {
    let headings = sample();
    assert_eq!(get_section_range(&headings, &heading(7, 3, "x")), (7, Some(9)));
    assert_eq!(get_section_range(&headings, &heading(7, 1, "x")), (7, Some(20)));
    assert_eq!(get_section_range(&headings, &heading(30, 6, "x")), (30, None));
    assert_eq!(get_section_range(&[], &heading(1, 1, "x")), (1, None));
}

#[test]
fn headings_inside_a_range_are_deeper() {
    let headings = sample();
    for h in &headings {
        let (start, end) = get_section_range(&headings, h);
        assert_eq!(start, h.line_number);
        for other in &headings {
            let inside = other.line_number > start && end.map_or(true, |e| other.line_number < e);
            if inside {
                assert!(other.level > h.level);
            }
        }
        if let Some(e) = end {
            assert!(e > start);
            let first_after = headings.iter().find(|o| o.line_number >= e).unwrap();
            assert_eq!(first_after.line_number, e);
            assert!(first_after.level <= h.level);
        }
    }
}

#[test]
fn subsections_keep_document_order_and_the_range_heading() {
    let headings = sample();
    let found = get_subsections(&headings, 3, Some(12), 6);
    assert_eq!(found, vec![&headings[1], &headings[2], &headings[3]]);
    let found = get_subsections(&headings, 3, Some(12), 2);
    assert_eq!(found, vec![&headings[1]]);
    let found = get_subsections(&headings, 3, Some(12), 1);
    assert_eq!(found, Vec::<&Heading>::new());
}

#[test]
fn subsections_without_an_end_run_to_the_last_heading() {
    let headings = sample();
    let found = get_subsections(&headings, 12, None, 6);
    assert_eq!(found, vec![&headings[4], &headings[5], &headings[6]]);
    let found = get_subsections(&headings, 12, None, 2);
    assert_eq!(found, vec![&headings[4], &headings[6]]);
    let found = get_subsections(&headings, 0, None, 6);
    assert_eq!(found.len(), 7);
    let found = get_subsections(&headings, 21, None, 6);
    assert_eq!(found, Vec::<&Heading>::new());
}

#[test]
fn subsections_exclude_the_end_line() {
    let headings = sample();
    assert_eq!(get_subsections(&headings, 1, Some(3), 6), vec![&headings[0]]);
    assert_eq!(get_subsections(&headings, 1, Some(4), 6), vec![&headings[0], &headings[1]]);
    assert_eq!(get_subsections(&headings, 6, Some(6), 6), Vec::<&Heading>::new());
    assert_eq!(get_subsections(&headings, 9, Some(3), 6), Vec::<&Heading>::new());
}

#[test]
fn subsections_accept_any_depth() {
    let headings = sample();
    assert_eq!(get_subsections(&headings, 1, None, 0), Vec::<&Heading>::new());
    assert_eq!(get_subsections(&headings, 1, None, 255).len(), 7);
    assert_eq!(get_subsections(&headings, 1, None, 3).len(), 6);
}

#[test]
fn first_subsection_is_the_first_deeper_heading_after() {
    let headings = sample();
    assert_eq!(get_first_subsection(&headings, &headings[0]), Some(&headings[1]));
    assert_eq!(get_first_subsection(&headings, &headings[1]), Some(&headings[2]));
    assert_eq!(get_first_subsection(&headings, &headings[4]), Some(&headings[5]));
    assert_eq!(get_first_subsection(&headings, &headings[6]), None);
    assert_eq!(get_first_subsection(&headings, &headings[5]), None);
    assert_eq!(get_first_subsection(&[], &headings[0]), None);
}

#[test]
fn first_subsection_may_lie_beyond_the_section() {
    let headings = sample();
    assert_eq!(get_first_subsection(&headings, &headings[2]), Some(&headings[5]));
    assert_eq!(get_first_subsection(&headings, &headings[3]), Some(&headings[5]));
}

#[test]
fn ranges_of_parsed_headings() {
    let headings = parse_headings("# a\n## b\ntext\n## c\n### d\n# e\n");
    assert_eq!(headings.len(), 5);
    assert_eq!(get_section_range(&headings, &headings[0]), (1, Some(6)));
    assert_eq!(get_section_range(&headings, &headings[1]), (2, Some(4)));
    assert_eq!(get_section_range(&headings, &headings[2]), (4, Some(6)));
    assert_eq!(get_section_range(&headings, &headings[3]), (5, Some(6)));
    assert_eq!(get_section_range(&headings, &headings[4]), (6, None));
}
