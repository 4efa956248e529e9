use line_set_ops::driver::{calculate_and_print, do_calculation, OpName, SetError};
use line_set_ops::intersect_set::IntersectSet;
use line_set_ops::union_set::UnionSet;

fn text_a() -> Vec<u8> {
    b"now is the time
now is the hour
there is the rhyme
but where is the flower?
"
    .to_vec()
}

fn text_b() -> Vec<u8> {
    b"but where is the flower?
eh? what's that you say?
now is the hour
there is the rhyme
and there's a bunny on road
and there's a bunny on road
"
    .to_vec()
}

fn lines(v: &[&str]) -> Vec<Vec<u8>> {
    v.iter().map(|s| s.as_bytes().to_vec()).collect()
}

#[test]
fn union_of_two_buffers() {
    let texts = vec![text_a(), text_b()];
    let result = do_calculation(OpName::Union, &texts).unwrap();
    assert_eq!(
        result,
        lines(&[
            "now is the time\n",
            "now is the hour\n",
            "there is the rhyme\n",
            "but where is the flower?\n",
            "eh? what's that you say?\n",
            "and there's a bunny on road\n",
        ])
    );
}

#[test]
fn intersection_of_two_buffers() {
    let texts = vec![text_a(), text_b()];
    let result = do_calculation(OpName::Intersect, &texts).unwrap();
    assert_eq!(
        result,
        lines(&[
            "now is the hour\n",
            "there is the rhyme\n",
            "but where is the flower?\n",
        ])
    );
}

#[test]
fn single_buffer_identity() {
    let texts = vec![text_b()];
    let expected = lines(&[
        "but where is the flower?\n",
        "eh? what's that you say?\n",
        "now is the hour\n",
        "there is the rhyme\n",
        "and there's a bunny on road\n",
    ]);
    let union = do_calculation(OpName::Union, &texts).unwrap();
    let intersect = do_calculation(OpName::Intersect, &texts).unwrap();
    assert_eq!(union, expected);
    assert_eq!(intersect, expected);
}

#[test]
fn empty_buffer_list_is_invalid_input() {
    let texts: Vec<Vec<u8>> = Vec::new();
    assert_eq!(
        do_calculation(OpName::Union, &texts),
        Err(SetError::InvalidInput)
    );
    assert_eq!(
        do_calculation(OpName::Intersect, &texts),
        Err(SetError::InvalidInput)
    );
}

#[test]
fn membership_is_idempotent() {
    let text = text_b();
    let mut once = UnionSet::default();
    once.insert_all_lines(&text);
    let mut twice = UnionSet::default();
    twice.insert_all_lines(&text);
    twice.insert_all_lines(&text);
    assert_eq!(once.result_lines(), twice.result_lines());
}

#[test]
fn insert_line_reports_newness() {
    let mut set = UnionSet::default();
    assert!(set.insert_line(b"alpha\n"));
    assert!(!set.insert_line(b"alpha\n"));
    assert!(set.insert_line(b"beta\n"));
    assert!(set.contains(b"alpha\n"));
    assert!(!set.contains(b"gamma\n"));
    assert_eq!(set.result_lines(), lines(&["alpha\n", "beta\n"]));
}

#[test]
fn empty_buffer_has_no_lines() {
    let set = UnionSet::init_from_slice(b"");
    assert_eq!(set.result_lines(), Vec::<Vec<u8>>::new());
}

#[test]
fn unterminated_final_line_is_kept() {
    let set = UnionSet::init_from_slice(b"one\ntwo");
    assert_eq!(set.result_lines(), lines(&["one\n", "two"]));
}

#[test]
fn buffer_without_newline_is_one_line() {
    let set = UnionSet::init_from_slice(b"no terminator here");
    assert_eq!(set.result_lines(), lines(&["no terminator here"]));
}

#[test]
fn line_with_terminator_differs_from_line_without() {
    let set = UnionSet::init_from_slice(b"last\nlast");
    assert_eq!(set.result_lines(), lines(&["last\n", "last"]));
}

#[test]
fn empty_lines_are_lines() {
    let set = UnionSet::init_from_slice(b"\n\nx\n\n");
    assert_eq!(set.result_lines(), lines(&["\n", "x\n"]));
}

#[test]
fn non_utf8_bytes_are_preserved() {
    let raw: Vec<u8> = vec![0xff, 0xfe, 0x00, b'\n', 0xff, 0xfe, 0x00, b'\n', 0x80];
    let set = UnionSet::init_from_slice(&raw);
    let result = set.result_lines();
    assert_eq!(result.len(), 2);
    assert_eq!(result[0], vec![0xff, 0xfe, 0x00, b'\n']);
    assert_eq!(result[1], vec![0x80]);
}

#[test]
fn intersect_set_borrows_only_first_buffer() {
    let mut set = IntersectSet::init(b"a\nb\nc\nb\n".to_vec());
    set.operate(b"c\na\n");
    assert_eq!(set.result_lines(), lines(&["a\n", "c\n"]));
    set.operate(b"c\nz\n");
    assert_eq!(set.result_lines(), lines(&["c\n"]));
    set.operate(b"");
    assert_eq!(set.result_lines(), Vec::<Vec<u8>>::new());
}

#[test]
fn union_set_write_to_appends_verbatim() {
    let set = UnionSet::init_from_slice(b"x\ny");
    let mut out: Vec<u8> = b"head:".to_vec();
    set.write_to(&mut out);
    assert_eq!(out, b"head:x\ny".to_vec());
}

#[test]
fn calculate_and_print_emits_exact_bytes() {
    let texts = vec![text_a(), text_b()];
    let mut out: Vec<u8> = Vec::new();
    calculate_and_print(OpName::Intersect, &texts, &mut out).unwrap();
    assert_eq!(
        out,
        b"now is the hour\nthere is the rhyme\nbut where is the flower?\n".to_vec()
    );
}

#[test]
fn calculate_and_print_leaves_output_untouched_on_error() {
    let texts: Vec<Vec<u8>> = Vec::new();
    let mut out: Vec<u8> = b"untouched".to_vec();
    assert_eq!(
        calculate_and_print(OpName::Union, &texts, &mut out),
        Err(SetError::InvalidInput)
    );
    assert_eq!(out, b"untouched".to_vec());
}

#[test]
fn union_of_three_buffers_orders_by_first_occurrence() {
    let texts = vec![
        b"b\na\n".to_vec(),
        b"c\nb\n".to_vec(),
        b"a\nd\n".to_vec(),
    ];
    let result = do_calculation(OpName::Union, &texts).unwrap();
    assert_eq!(result, lines(&["b\n", "a\n", "c\n", "d\n"]));
}

#[test]
fn intersection_of_three_buffers() {
    let texts = vec![
        b"a\nb\nc\nd\n".to_vec(),
        b"d\nb\nx\n".to_vec(),
        b"b\ny\nd\n".to_vec(),
    ];
    let result = do_calculation(OpName::Intersect, &texts).unwrap();
    assert_eq!(result, lines(&["b\n", "d\n"]));
}
