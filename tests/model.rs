use delim_view::{goto_target, parse_usize};
use delim_view::filter::compiler::Filter;
use delim_view::filter::engine::Engine;
use delim_view::{
    nb_print_len, progress, sniff_delimiter, ColSize, ColStat, Cols, ColsCmd, Constraint, Decoder, Fmt,
    Grid, HistoryBuffer, IndexBuilder, Nav, NestedString, SizeCmd, Spinner, Ty,
};

fn rec(line: &[u8]) -> NestedString {
    let mut r = NestedString::new();
    r.read_from(&mut Decoder::new(b','), line);
    r
}

#[test]
fn nav_full_moves_reach_the_extremes() {
    let mut n = Nav::new();
    assert_eq!(n.row_offset(10, 5), 0);
    n.col_iter(4);
    n.full_down();
    n.full_right();
    assert_eq!((n.c_row, n.c_col), (9, 3));
    n.full_up();
    n.full_left();
    assert_eq!((n.c_row, n.c_col), (0, 0));
    n.up();
    n.left();
    assert_eq!((n.c_row, n.c_col), (0, 0));
}

#[test]
fn nav_row_offset_keeps_cursor_in_view() {
    let mut n = Nav::new();
    n.go_to((20, 0));
    assert_eq!(n.row_offset(100, 10), 11);
    n.go_to((5, 0));
    assert_eq!(n.row_offset(100, 10), 5);
    n.go_to((500, 0));
    assert_eq!(n.row_offset(100, 10), 90);
    assert_eq!(n.c_row, 99);
    assert_eq!(n.row_offset(0, 10), 0);
}

#[test]
fn nav_column_packing_order() {
    let mut n = Nav::new();
    n.o_col = 2;
    n.c_col = 4;
    let mut it = n.col_iter(7);
    let mut order = Vec::new();
    while let Some(c) = n.col_next(&it) {
        order.push(c);
        n.col_fit(&mut it, c, true);
    }
    assert_eq!(order, vec![4, 3, 2, 5, 6, 1, 0]);
    assert_eq!(n.o_col, 0);
}

#[test]
fn nav_column_packing_stops_at_first_misfit() {
    let mut n = Nav::new();
    n.o_col = 2;
    n.c_col = 4;
    let mut it = n.col_iter(7);
    let mut order = Vec::new();
    while let Some(c) = n.col_next(&it) {
        order.push(c);
        n.col_fit(&mut it, c, order.len() < 3);
    }
    assert_eq!(order, vec![4, 3, 2]);
    assert_eq!(n.o_col, 2);
}

#[test]
fn cols_commands() {
    let mut c = Cols::new(rec(b"a,b,c\n"));
    c.set_nb_cols(3);
    assert_eq!(c.visible_col(), 3);
    c.cmd(0, ColsCmd::Right);
    assert_eq!(c.get_col(0).0, 1);
    assert_eq!(c.get_col(1), (0, Some(&b"a"[..])));
    c.cmd(1, ColsCmd::Left);
    assert_eq!(c.get_col(0).0, 0);
    c.cmd(1, ColsCmd::Hide);
    assert_eq!(c.visible_col(), 2);
    assert_eq!(c.get_col(1).0, 2);
    c.set_nb_cols(4);
    assert_eq!(c.visible_col(), 3);
    assert_eq!(c.get_col(2), (3, None));
    c.set_nb_cols(2);
    assert_eq!(c.visible_col(), 3);
    assert_eq!(c.nb_col(), 2);
    c.cmd(9, ColsCmd::Hide);
    assert_eq!(c.visible_col(), 3);
}

#[test]
fn cols_sizes() {
    let mut c = Cols::new(rec(b"a,b\n"));
    c.set_nb_cols(2);
    assert_eq!(c.size(0, 30), 25);
    c.size_cmd(0, SizeCmd::Full);
    assert_eq!(c.size(0, 3), 30);
    c.size_cmd(0, SizeCmd::Less);
    assert_eq!(c.size(0, 0), 29);
    c.size_cmd(0, SizeCmd::More);
    c.size_cmd(0, SizeCmd::More);
    assert_eq!(c.size(0, 0), 31);
    c.size_cmd(0, SizeCmd::Constrain);
    assert_eq!(c.size(0, 0), 25);
    c.fit();
    assert_eq!(c.size(0, 4), 4);
    c.reset_size();
    assert_eq!(c.size(1, 2), 2);
}

#[test]
fn col_size_alone() {
    let mut s = ColSize::new();
    s.set_nb_cols(2);
    s.register_size(1, 40);
    assert_eq!(s.get_size(1), 25);
    s.cmd(1, SizeCmd::Full);
    assert_eq!(s.get_size(1), 40);
    s.cmd(0, SizeCmd::Less);
    assert_eq!(s.get_size(0), 0);
    s.fit();
    assert_eq!(s.get_size(1), 0);
    s.reset();
    assert_eq!(s.len(), 0);
    let _ = Constraint::Defined(3);
}

#[test]
fn type_guess() {
    assert_eq!(Ty::guess(b"12.345"), Ty::Nb { lhs: 2, rhs: 4 });
    assert_eq!(Ty::guess(b"-7"), Ty::Nb { lhs: 2, rhs: 0 });
    assert_eq!(Ty::guess(b"True"), Ty::Bool);
    assert_eq!(Ty::guess(b"FALSE"), Ty::Bool);
    assert_eq!(Ty::guess(b"tRue"), Ty::Str);
    assert_eq!(Ty::guess(b"hello"), Ty::Str);
    assert!(Ty::guess(b"x").is_str());
}

#[test]
fn col_stat_budget() {
    let mut s = ColStat::new();
    s.add(&Ty::Nb { lhs: 3, rhs: 3 }, b"123.45");
    s.add(&Ty::Str, b"abcdefgh");
    s.header_name(b"name");
    assert_eq!(s.max_lhs, 8);
    assert_eq!(s.max_rhs, 3);
    assert!(s.align_decimal);
    assert!(!s.only_str);
    assert_eq!(s.budget(), 11);
    let mut t = ColStat::new();
    t.add(&Ty::Str, &[b'x'; 60]);
    assert_eq!(t.budget(), 25);
    t.add(&Ty::Bool, b"true");
    assert_eq!(t.budget(), 40);
}

#[test]
fn fmt_amount_groups_digits() {
    let mut f = Fmt::new();
    assert_eq!(f.amount(0), "0");
    assert_eq!(f.amount(999), "999");
    assert_eq!(f.amount(1000), "1_000");
    assert_eq!(f.amount(1234567), "1_234_567");
}

#[test]
fn fmt_number_alignment() {
    let mut f = Fmt::new();
    let mut s = ColStat::new();
    s.add(&Ty::Nb { lhs: 3, rhs: 3 }, b"123.45");
    s.add(&Ty::Nb { lhs: 1, rhs: 0 }, b"7");
    assert_eq!(f.field(&Ty::Nb { lhs: 1, rhs: 0 }, b"7", &s, 6), "  7   ");
    assert_eq!(f.field(&Ty::Nb { lhs: 3, rhs: 3 }, b"123.45", &s, 6), "123.45");
    assert_eq!(f.field(&Ty::Nb { lhs: 1, rhs: 0 }, b"7", &s, 8), "    7   ");
}

#[test]
fn fmt_string_padding_and_cut() {
    let mut f = Fmt::new();
    let s = ColStat::new();
    assert_eq!(f.field(&Ty::Str, b"ab", &s, 4), "ab  ");
    assert_eq!(f.field(&Ty::Str, b"abcdef", &s, 4), "abc\u{2026}");
    assert_eq!(f.rtrim("hello", 3), "he\u{2026}");
    assert_eq!(f.rtrim("hi", 3), "hi");
}

#[test]
fn fmt_narrow_columns_show_an_ellipsis() {
    let mut f = Fmt::new();
    let s = ColStat::new();
    assert_eq!(f.field(&Ty::Str, b"abc", &s, 0), "\u{2026}");
    assert_eq!(f.field(&Ty::Str, b"abc", &s, 1), "\u{2026}");
}

#[test]
fn fmt_wide_glyphs_count_twice() {
    let mut f = Fmt::new();
    assert_eq!(f.rtrim("\u{4E2D}\u{6587}\u{5B57}", 4), "\u{4E2D}\u{2026}");
}

#[test]
fn spinner_frames() {
    let mut s = Spinner::new();
    assert_eq!(s.state(true, 1000), None);
    assert_eq!(s.state(true, 1200), None);
    assert_eq!(s.state(true, 1300), Some('\u{280B}'));
    assert_eq!(s.state(true, 1560), Some('\u{2819}'));
    assert_eq!(s.state(false, 1600), None);
    assert_eq!(s.start, None);
}

#[test]
fn print_len_counts_digits() {
    assert_eq!(nb_print_len(0), 1);
    assert_eq!(nb_print_len(9), 1);
    assert_eq!(nb_print_len(10), 2);
    assert_eq!(nb_print_len(12345), 5);
    assert_eq!(nb_print_len(usize::MAX), 20);
}

#[test]
fn progress_percent() {
    assert_eq!(progress(0, 0), 0);
    assert_eq!(progress(50, 200), 25);
    assert_eq!(progress(200, 200), 100);
    assert_eq!(progress(900, 200), 100);
    assert_eq!(progress(u64::MAX, u64::MAX), 100);
}

#[test]
fn history_buffer_keeps_newest() {
    let mut h: HistoryBuffer<u32, 3> = HistoryBuffer::new();
    assert_eq!(h.len(), 0);
    h.push(1);
    h.push(2);
    assert_eq!(h.len(), 2);
    assert_eq!(*h.get(0), 2);
    assert_eq!(*h.get(1), 1);
    h.push(3);
    h.push(4);
    assert_eq!(h.len(), 3);
    assert_eq!((*h.get(0), *h.get(1), *h.get(2)), (4, 3, 2));
}

#[test]
fn grid_reuses_rows() {
    let mut g = Grid::new();
    g.begin();
    assert!(!g.reuse(5));
    let mut r = g.take_buffer();
    r.read_from(&mut Decoder::new(b','), b"a,b\n");
    g.push_row(5, r);
    assert!(!g.reuse(6));
    let mut r = g.take_buffer();
    r.read_from(&mut Decoder::new(b','), b"c\n");
    g.push_row(6, r);
    assert_eq!(g.rows().len(), 2);
    g.begin();
    assert!(g.reuse(6));
    assert_eq!(g.rows()[0].0, 6);
    assert_eq!(g.rows()[0].1.len(), 1);
}

#[test]
fn index_builder_overflow_guard_and_sync() {
    let f = Filter::empty();
    let e = Engine::new(&f);
    let mut b = IndexBuilder::new(u64::MAX - 1, 0);
    let r = rec(b"a\n");
    assert_eq!(b.push_record(&e, &r, 5), None);
    let mut b = IndexBuilder::new(0, 0);
    for _ in 0..999 {
        assert_eq!(b.push_record(&e, &r, 2), Some(false));
    }
    assert_eq!(b.push_record(&e, &r, 2), Some(true));
    assert_eq!(b.row_count(), 1000);
    assert_eq!(b.offset_now(), 2000);
    assert_eq!(b.max_col_now(), 1);
    assert_eq!(b.entries_from(998), vec![(998, 1996), (999, 1998)]);
}

#[test]
fn delimiter_ties_prefer_comma() {
    assert_eq!(sniff_delimiter(b"a|b,c\nx;y;z;w"), b',');
    assert_eq!(sniff_delimiter(b"plain"), b',');
    assert_eq!(sniff_delimiter(b"a|b|c:d"), b'|');
}

#[test]
fn number_cell_reads_back_the_same() {
    let mut f = Fmt::new();
    let mut s = ColStat::new();
    for v in [&b"12.5"[..], b"3.125", b"100"] {
        s.add(&Ty::guess(v), v);
    }
    for v in [&b"12.5"[..], b"3.125", b"100"] {
        let ty = Ty::guess(v);
        let cell = f.field(&ty, v, &s, s.budget()).to_string();
        assert_eq!(cell.chars().count(), s.budget());
        assert_eq!(Ty::guess(cell.trim().as_bytes()), ty);
    }
}

#[test]
fn goto_targets() {
    assert_eq!(goto_target(b"12:3", (7, 8)), (11, 2));
    assert_eq!(goto_target(b"12", (7, 8)), (11, 8));
    assert_eq!(goto_target(b":4", (7, 8)), (7, 3));
    assert_eq!(goto_target(b"0:x", (7, 8)), (0, 8));
    assert_eq!(parse_usize(b"+15"), Some(15));
    assert_eq!(parse_usize(b"99999999999999999999999"), None);
}

#[test]
fn init_vec_growth_doubles() {
    let mut v: delim_view::InitVec<u8, 4> = delim_view::InitVec::new();
    assert_eq!(v.capacity(), 4);
    v.grow();
    assert_eq!(v.capacity(), 8);
    v.grow();
    assert_eq!(v.capacity(), 16);
    v.set_len(40);
    assert_eq!(v.len(), 40);
    assert_eq!(v.capacity(), 64);
}

#[test]
fn type_guess_trims_the_field() {
    assert_eq!(Ty::guess(b" 12.5 "), Ty::Nb { lhs: 2, rhs: 2 });
    assert_eq!(Ty::guess(b"\ttrue "), Ty::Bool);
}
