use goncharov::piece_table::{_delete_text, _get_table_length, insert_table, read_table, Buffer, PieceTable};

fn table(entries: &[(Buffer, usize, usize)]) -> PieceTable {
    let mut t = PieceTable { which: Vec::new(), start: Vec::new(), end: Vec::new() };
    for (b, s, e) in entries {
        t.which.push(b.clone());
        t.start.push(*s);
        t.end.push(*e);
    }
    t
}

#[test]
fn read_whole_original() {
    let original = "Hello world".to_string();
    let add = "You".to_string();
    let t = table(&[(Buffer::Original, 0, 11)]);
    assert_eq!(read_table(&t, &original, &add), "Hello world");
}

#[test]
fn read_mixed_pieces() {
    let original = "Hello world".to_string();
    let add = "You".to_string();
    let t = table(&[(Buffer::Original, 0, 6), (Buffer::Add, 0, 3)]);
    assert_eq!(read_table(&t, &original, &add), "Hello You");
}

#[test]
fn insert_at_piece_boundary_goes_before_the_piece() {
    let original = "Hello world".to_string();
    let add = "You".to_string();
    let t = table(&[(Buffer::Original, 0, 6), (Buffer::Add, 0, 3)]);
    let (add, t) = insert_table(add, t, &"to ".to_string(), 6);
    assert_eq!(add, "Youto ");
    assert_eq!(t.which, vec![Buffer::Original, Buffer::Add, Buffer::Add]);
    assert_eq!(t.start, vec![0, 3, 0]);
    assert_eq!(t.end, vec![6, 6, 3]);
    assert_eq!(read_table(&t, &original, &add), "Hello to You");
}

#[test]
fn insert_inside_a_piece_splits_it() {
    let original = "Hello world".to_string();
    let add = "".to_string();
    let t = table(&[(Buffer::Original, 0, 11)]);
    let (add, t) = insert_table(add, t, &"XY".to_string(), 3);
    assert_eq!(t.which, vec![Buffer::Original, Buffer::Add, Buffer::Original]);
    assert_eq!(t.start, vec![0, 0, 3]);
    assert_eq!(t.end, vec![3, 2, 11]);
    assert_eq!(read_table(&t, &original, &add), "HelXYlo world");
}

#[test]
fn insert_past_the_end_appends() {
    let original = "abc".to_string();
    let add = "".to_string();
    let t = table(&[(Buffer::Original, 0, 3)]);
    let (add, t) = insert_table(add, t, &"!".to_string(), 99);
    assert_eq!(t.which, vec![Buffer::Original, Buffer::Add]);
    assert_eq!(read_table(&t, &original, &add), "abc!");
    let (add, t) = insert_table(add, t, &"?".to_string(), 4);
    assert_eq!(read_table(&t, &original, &add), "abc!?");
}

#[test]
fn insert_into_empty_table() {
    let original = "".to_string();
    let add = "".to_string();
    let t = table(&[]);
    let (add, t) = insert_table(add, t, &"héllo".to_string(), 0);
    assert_eq!(add, "héllo");
    assert_eq!(t.start, vec![0]);
    assert_eq!(t.end, vec![6]);
    assert_eq!(read_table(&t, &original, &add), "héllo");
}

#[test]
fn table_length_matches_document_length() {
    let original = "Hello world".to_string();
    let add = "Youto ".to_string();
    let t = table(&[(Buffer::Original, 0, 6), (Buffer::Add, 3, 6), (Buffer::Add, 0, 3)]);
    assert_eq!(_get_table_length(&t), 12);
    assert_eq!(read_table(&t, &original, &add).len(), 12);
}

#[test]
fn delete_leaves_the_table_alone() {
    let t = table(&[(Buffer::Original, 0, 6), (Buffer::Add, 3, 6)]);
    let u = _delete_text(t.clone(), 0, 3);
    assert_eq!(u.which, t.which);
    assert_eq!(u.start, t.start);
    assert_eq!(u.end, t.end);
}

#[test]
fn listings() {
    let t = table(&[(Buffer::Original, 0, 6), (Buffer::Add, 12, 305)]);
    assert_eq!(t.to_display_string(), "Original | 0 | 6\nAdd | 12 | 305\n");
    assert_eq!(Buffer::Add.to_display_string(), "Add");
    assert_eq!(Buffer::Original.to_display_string(), "Original");
}

#[test]
fn earlier_tables_still_read_their_text() {
    let original = "Hello world".to_string();
    let t0 = table(&[(Buffer::Original, 0, 11)]);
    let (a1, t1) = insert_table("".to_string(), t0.clone(), &"big ".to_string(), 6);
    let (a2, t2) = insert_table(a1.clone(), t1.clone(), &"!".to_string(), 15);
    assert!(a2.starts_with(&a1));
    assert_eq!(read_table(&t0, &original, &a2), "Hello world");
    assert_eq!(read_table(&t1, &original, &a2), "Hello big world");
    assert_eq!(read_table(&t2, &original, &a2), "Hello big world!");
}

#[test]
fn insertion_adds_one_piece_or_splits_one() {
    let t0 = table(&[(Buffer::Original, 0, 5), (Buffer::Original, 5, 11)]);
    let (_, at_boundary) = insert_table("".to_string(), t0.clone(), &"xy".to_string(), 5);
    assert_eq!(at_boundary.which.len(), 3);
    assert_eq!(_get_table_length(&at_boundary), _get_table_length(&t0) + 2);
    let (_, inside) = insert_table("".to_string(), t0.clone(), &"xy".to_string(), 7);
    assert_eq!(inside.which.len(), 4);
    assert_eq!(_get_table_length(&inside), _get_table_length(&t0) + 2);
    let (_, past_end) = insert_table("".to_string(), t0.clone(), &"xyz".to_string(), 40);
    assert_eq!(past_end.which.len(), 3);
    assert_eq!(_get_table_length(&past_end), _get_table_length(&t0) + 3);
}
