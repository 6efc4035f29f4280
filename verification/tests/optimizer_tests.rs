use bf_interp::byte_stream::ByteStream;
use bf_interp::optimizer::contract::contract_opt;
use bf_interp::optimizer::copy_loop::{
    copy_mul_div_loop_opt, next_unnested_loop, replace_mul_copy_loop,
};
use bf_interp::optimizer::dead_loop::{comment_loop_opt, unused_loop_opt};
use bf_interp::optimizer::patterns::{clear_loop_opt, scan_loop_opt};
use bf_interp::optimizer::{optimize, optimize_with, OptConfig, OptLevel};
use bf_interp::parser::parse;
use bf_interp::syntax::{Ast, Dir, Ir};

fn program(text: &str) -> Ast {
    let mut stream = ByteStream::new(text.as_bytes().to_vec());
    parse(&mut stream).unwrap()
}

fn only(contraction: bool, clear_loop: bool, scan_loop: bool, copy_mul_loop: bool) -> OptConfig {
    OptConfig { contraction, clear_loop, scan_loop, copy_mul_loop }
}

#[test]
fn contraction_cancels_equal_add_and_sub() {
    assert_eq!(contract_opt(&vec![Ir::Add(3), Ir::Sub(3)]), vec![]);
    assert_eq!(optimize(OptLevel::Default, &vec![Ir::Add(3), Ir::Sub(3)]), vec![]);
}

#[test]
fn contraction_keeps_the_larger_sign() {
    assert_eq!(contract_opt(&vec![Ir::Add(5), Ir::Sub(2)]), vec![Ir::Add(3)]);
    assert_eq!(contract_opt(&vec![Ir::Add(2), Ir::Sub(5)]), vec![Ir::Sub(3)]);
    assert_eq!(contract_opt(&vec![Ir::Sub(5), Ir::Add(2)]), vec![Ir::Sub(3)]);
    assert_eq!(contract_opt(&vec![Ir::Sub(2), Ir::Add(5)]), vec![Ir::Add(3)]);
    assert_eq!(optimize(OptLevel::Default, &vec![Ir::Add(5), Ir::Sub(2)]), vec![Ir::Add(3)]);
}

#[test]
fn contraction_sums_same_kind() {
    assert_eq!(contract_opt(&program("+++")), vec![Ir::Add(3)]);
    assert_eq!(contract_opt(&program("----")), vec![Ir::Sub(4)]);
    assert_eq!(contract_opt(&program(">>")), vec![Ir::Shift(Dir::Right, 2)]);
    assert_eq!(contract_opt(&program("<<<")), vec![Ir::Shift(Dir::Left, 3)]);
}

#[test]
fn contraction_of_shifts_in_opposite_directions() {
    assert_eq!(contract_opt(&program(">>><")), vec![Ir::Shift(Dir::Right, 2)]);
    assert_eq!(contract_opt(&program("><<<")), vec![Ir::Shift(Dir::Left, 2)]);
    assert_eq!(contract_opt(&program("<<>>")), vec![]);
}

#[test]
fn contraction_reaches_a_fixed_point() {
    assert_eq!(contract_opt(&program("+-+")), vec![Ir::Add(1)]);
    assert_eq!(contract_opt(&program(">+->")), vec![Ir::Shift(Dir::Right, 2)]);
    assert_eq!(
        contract_opt(&program(">>>+++<<<---")),
        vec![
            Ir::Shift(Dir::Right, 3),
            Ir::Add(3),
            Ir::Shift(Dir::Left, 3),
            Ir::Sub(3)
        ]
    );
}

#[test]
fn contraction_wraps_cell_sums() {
    assert_eq!(contract_opt(&vec![Ir::Add(200), Ir::Add(100)]), vec![Ir::Add(44)]);
    assert_eq!(contract_opt(&vec![Ir::Sub(200), Ir::Sub(100)]), vec![Ir::Sub(44)]);
    assert_eq!(contract_opt(&vec![Ir::Add(255), Ir::Add(1)]), vec![]);
}

#[test]
fn contraction_holds_shift_sums_at_the_largest_distance() {
    assert_eq!(
        contract_opt(&vec![Ir::Shift(Dir::Right, usize::MAX), Ir::Shift(Dir::Right, 7)]),
        vec![Ir::Shift(Dir::Right, usize::MAX)]
    );
}

#[test]
fn contraction_stops_at_other_instructions() {
    let ast = program("+.+[-]-,-");
    assert_eq!(contract_opt(&ast), ast);
    assert_eq!(contract_opt(&vec![]), vec![]);
    assert_eq!(contract_opt(&vec![Ir::Add(1)]), vec![Ir::Add(1)]);
}

#[test]
fn contraction_twice_is_contraction_once() {
    for text in ["+-+", ">+->", "++[->+<]--<<>", "+++---[>><<]", "", "-", "+[+-]-"] {
        let once = contract_opt(&program(text));
        assert_eq!(contract_opt(&once), once);
    }
    let wide = contract_opt(&vec![
        Ir::Shift(Dir::Right, usize::MAX),
        Ir::Shift(Dir::Right, 5),
        Ir::Shift(Dir::Left, 6),
    ]);
    assert_eq!(contract_opt(&wide), wide);
}

#[test]
fn clear_loop_becomes_clear() {
    assert_eq!(
        clear_loop_opt(&vec![Ir::Open, Ir::Sub(1), Ir::Close]),
        vec![Ir::Clear]
    );
    assert_eq!(
        clear_loop_opt(&vec![Ir::Open, Ir::Add(1), Ir::Close]),
        vec![Ir::Clear]
    );
    assert_eq!(
        optimize_with(only(false, true, false, false), &program("+[-]")),
        vec![Ir::Add(1), Ir::Clear]
    );
    assert_eq!(
        optimize(OptLevel::Default, &program(",[-]")),
        vec![Ir::Read, Ir::Clear]
    );
}

#[test]
fn clear_loop_needs_a_body_of_one() {
    let two = vec![Ir::Open, Ir::Sub(2), Ir::Close];
    assert_eq!(clear_loop_opt(&two), two);
    let short = vec![Ir::Open, Ir::Sub(1)];
    assert_eq!(clear_loop_opt(&short), short);
    assert_eq!(
        clear_loop_opt(&program("[[-]][-][+]")),
        vec![Ir::Open, Ir::Clear, Ir::Close, Ir::Clear, Ir::Clear]
    );
}

#[test]
fn scan_loop_becomes_scan() {
    assert_eq!(
        scan_loop_opt(&vec![Ir::Open, Ir::Shift(Dir::Right, 1), Ir::Close]),
        vec![Ir::Scan(Dir::Right)]
    );
    assert_eq!(
        scan_loop_opt(&vec![Ir::Open, Ir::Shift(Dir::Left, 1), Ir::Close]),
        vec![Ir::Scan(Dir::Left)]
    );
    assert_eq!(
        optimize(OptLevel::Default, &program(",[>]")),
        vec![Ir::Read, Ir::Scan(Dir::Right)]
    );
}

#[test]
fn scan_loop_needs_a_shift_by_one() {
    let two = vec![Ir::Open, Ir::Shift(Dir::Right, 2), Ir::Close];
    assert_eq!(scan_loop_opt(&two), two);
    assert_eq!(
        scan_loop_opt(&program("+[<][-]")),
        vec![Ir::Add(1), Ir::Scan(Dir::Left), Ir::Open, Ir::Sub(1), Ir::Close]
    );
}

#[test]
fn copy_loop_becomes_copy_and_clear() {
    let body = vec![
        Ir::Sub(1),
        Ir::Shift(Dir::Right, 2),
        Ir::Add(1),
        Ir::Shift(Dir::Left, 2),
    ];
    assert_eq!(
        replace_mul_copy_loop(&body),
        Some(vec![Ir::Copy(Dir::Right, 2), Ir::Clear])
    );
    let mut whole = vec![Ir::Read, Ir::Open];
    whole.extend(body);
    whole.push(Ir::Close);
    assert_eq!(
        copy_mul_div_loop_opt(&whole),
        vec![Ir::Read, Ir::Copy(Dir::Right, 2), Ir::Clear]
    );
    assert_eq!(
        optimize(OptLevel::Aggressive, &whole),
        vec![Ir::Read, Ir::Copy(Dir::Right, 2), Ir::Clear]
    );
}

#[test]
fn multiply_loop_becomes_mul() {
    assert_eq!(
        replace_mul_copy_loop(&program("->+>++>--<<<")),
        Some(vec![
            Ir::Copy(Dir::Right, 1),
            Ir::Mul(Dir::Right, 2, 2),
            Ir::Mul(Dir::Right, 3, -2),
            Ir::Clear
        ])
    );
    assert_eq!(
        replace_mul_copy_loop(&program("<+++>-<<->>")),
        Some(vec![
            Ir::Mul(Dir::Left, 1, 3),
            Ir::Mul(Dir::Left, 2, -1),
            Ir::Clear
        ])
    );
}

#[test]
fn analyzer_adds_up_what_one_cell_gets() {
    assert_eq!(
        replace_mul_copy_loop(&program(">+<->++<")),
        Some(vec![Ir::Mul(Dir::Right, 1, 3), Ir::Clear])
    );
    assert_eq!(
        replace_mul_copy_loop(&program(">+<->-<")),
        Some(vec![Ir::Clear])
    );
    assert_eq!(replace_mul_copy_loop(&program("-")), Some(vec![Ir::Clear]));
}

#[test]
fn analyzer_refuses_what_has_no_closed_form() {
    assert_eq!(replace_mul_copy_loop(&program("->+")), None);
    assert_eq!(replace_mul_copy_loop(&program("-->+<")), None);
    assert_eq!(replace_mul_copy_loop(&program("+>+<")), None);
    assert_eq!(replace_mul_copy_loop(&program(">+<")), None);
    assert_eq!(replace_mul_copy_loop(&program("")), None);
    assert_eq!(replace_mul_copy_loop(&program("-.")), None);
    assert_eq!(replace_mul_copy_loop(&program("-,")), None);
    assert_eq!(replace_mul_copy_loop(&vec![Ir::Sub(1), Ir::Clear]), None);
    assert_eq!(replace_mul_copy_loop(&vec![Ir::Add(255)]), None);
}

#[test]
fn analyzer_refuses_a_factor_that_does_not_fit() {
    assert_eq!(
        replace_mul_copy_loop(&vec![
            Ir::Sub(1),
            Ir::Shift(Dir::Right, 1),
            Ir::Add(128),
            Ir::Shift(Dir::Left, 1)
        ]),
        None
    );
    assert_eq!(
        replace_mul_copy_loop(&vec![
            Ir::Sub(1),
            Ir::Shift(Dir::Right, 1),
            Ir::Add(127),
            Ir::Shift(Dir::Left, 1)
        ]),
        Some(vec![Ir::Mul(Dir::Right, 1, 127), Ir::Clear])
    );
    assert_eq!(
        replace_mul_copy_loop(&vec![
            Ir::Sub(1),
            Ir::Shift(Dir::Right, 1),
            Ir::Sub(128),
            Ir::Shift(Dir::Left, 1)
        ]),
        Some(vec![Ir::Mul(Dir::Right, 1, -128), Ir::Clear])
    );
    assert_eq!(
        replace_mul_copy_loop(&vec![
            Ir::Sub(1),
            Ir::Shift(Dir::Right, 1),
            Ir::Add(200),
            Ir::Sub(199),
            Ir::Shift(Dir::Left, 1)
        ]),
        Some(vec![Ir::Copy(Dir::Right, 1), Ir::Clear])
    );
}

#[test]
fn analyzer_refuses_a_pointer_out_of_reach() {
    assert_eq!(
        replace_mul_copy_loop(&vec![
            Ir::Sub(1),
            Ir::Shift(Dir::Right, usize::MAX),
            Ir::Shift(Dir::Right, 1),
            Ir::Shift(Dir::Left, usize::MAX),
            Ir::Shift(Dir::Left, 1)
        ]),
        None
    );
}

#[test]
fn copy_pass_leaves_other_loops_alone() {
    let with_io = program(",[-.>+<]");
    assert_eq!(copy_mul_div_loop_opt(&with_io), with_io);
    let drifting = program(",[->+]");
    assert_eq!(copy_mul_div_loop_opt(&drifting), drifting);
    assert_eq!(
        copy_mul_div_loop_opt(&program(",[>[->+<]<-]")),
        vec![
            Ir::Read,
            Ir::Open,
            Ir::Shift(Dir::Right, 1),
            Ir::Copy(Dir::Right, 1),
            Ir::Clear,
            Ir::Shift(Dir::Left, 1),
            Ir::Sub(1),
            Ir::Close
        ]
    );
    assert_eq!(copy_mul_div_loop_opt(&vec![]), vec![]);
    let open_only = vec![Ir::Add(1), Ir::Open, Ir::Sub(1)];
    assert_eq!(copy_mul_div_loop_opt(&open_only), open_only);
}

#[test]
fn next_unnested_loop_finds_the_innermost_first() {
    let ast = program("+[>[-]<[->+<]]");
    assert_eq!(next_unnested_loop(&ast, 0), Some((3, 5)));
    assert_eq!(next_unnested_loop(&ast, 3), Some((3, 5)));
    assert_eq!(next_unnested_loop(&ast, 4), Some((7, 12)));
    assert_eq!(next_unnested_loop(&ast, 8), None);
    assert_eq!(next_unnested_loop(&ast, 100), None);
    assert_eq!(next_unnested_loop(&vec![Ir::Open, Ir::Open], 0), None);
    assert_eq!(next_unnested_loop(&vec![Ir::Close, Ir::Open, Ir::Close], 0), Some((1, 2)));
}

#[test]
fn leading_loop_is_removed() {
    assert_eq!(
        comment_loop_opt(&program("[any.,+-<>[nested]text]+.")),
        vec![Ir::Add(1), Ir::Write]
    );
    assert_eq!(
        optimize(OptLevel::No, &program("[-.>+<[,]]+.")),
        vec![Ir::Add(1), Ir::Write]
    );
    for level in [OptLevel::No, OptLevel::Less, OptLevel::Default, OptLevel::Aggressive] {
        assert_eq!(optimize(level, &program("[+>,.<]>.")), optimize(level, &program(">.")));
    }
}

#[test]
fn leading_loops_are_all_removed() {
    assert_eq!(comment_loop_opt(&program("[a][b[c]][]+[-]")), program("+[-]"));
    assert_eq!(comment_loop_opt(&program("[a][b]")), vec![]);
    assert_eq!(comment_loop_opt(&vec![]), vec![]);
    assert_eq!(comment_loop_opt(&program("+[-]")), program("+[-]"));
}

#[test]
fn leading_open_without_close_stays() {
    let ast = vec![Ir::Open, Ir::Add(1)];
    assert_eq!(comment_loop_opt(&ast), ast);
    let second = vec![Ir::Open, Ir::Close, Ir::Open, Ir::Open, Ir::Close];
    assert_eq!(
        comment_loop_opt(&second),
        vec![Ir::Open, Ir::Open, Ir::Close]
    );
}

#[test]
fn loop_behind_a_loop_is_removed() {
    assert_eq!(unused_loop_opt(&program("+[-][>+<]")), program("+[-]"));
    assert_eq!(unused_loop_opt(&program("+[-][a][b[c]]>")), program("+[-]>"));
    assert_eq!(unused_loop_opt(&program("+[[-][+]]")), program("+[[-]]"));
    assert_eq!(unused_loop_opt(&program("+[-]>[+]")), program("+[-]>[+]"));
    assert_eq!(unused_loop_opt(&program("[-][+]")), program("[-]"));
    assert_eq!(unused_loop_opt(&vec![]), vec![]);
    assert_eq!(unused_loop_opt(&vec![Ir::Open]), vec![Ir::Open]);
}

#[test]
fn loop_behind_a_loop_without_close_stays() {
    let ast = vec![Ir::Add(1), Ir::Open, Ir::Close, Ir::Open, Ir::Sub(1)];
    assert_eq!(unused_loop_opt(&ast), ast);
}

#[test]
fn levels_map_to_passes() {
    assert_eq!(OptLevel::No.config(), only(false, false, false, false));
    assert_eq!(OptLevel::Less.config(), only(false, false, false, false));
    assert_eq!(OptLevel::Default.config(), only(true, true, true, false));
    assert_eq!(OptLevel::Aggressive.config(), only(true, true, true, true));
    assert_eq!(OptConfig::default(), only(true, true, true, true));
    assert!(OptLevel::No < OptLevel::Less);
    assert!(OptLevel::Less < OptLevel::Default);
    assert!(OptLevel::Default < OptLevel::Aggressive);
}

#[test]
fn passes_are_switched_one_by_one() {
    let ast = program("[x]++[-][>][->+<],[-],[>],[->+<]");
    assert_eq!(
        optimize_with(only(false, false, false, false), &ast),
        program("++[-],[-],[>],[->+<]")
    );
    assert_eq!(
        optimize_with(only(true, false, false, false), &ast),
        vec![
            Ir::Add(2),
            Ir::Open,
            Ir::Sub(1),
            Ir::Close,
            Ir::Read,
            Ir::Open,
            Ir::Sub(1),
            Ir::Close,
            Ir::Read,
            Ir::Open,
            Ir::Shift(Dir::Right, 1),
            Ir::Close,
            Ir::Read,
            Ir::Open,
            Ir::Sub(1),
            Ir::Shift(Dir::Right, 1),
            Ir::Add(1),
            Ir::Shift(Dir::Left, 1),
            Ir::Close
        ]
    );
    assert_eq!(
        optimize_with(only(false, true, false, false), &program(",[-],[>]")),
        vec![
            Ir::Read,
            Ir::Clear,
            Ir::Read,
            Ir::Open,
            Ir::Shift(Dir::Right, 1),
            Ir::Close
        ]
    );
    assert_eq!(
        optimize_with(only(false, false, true, false), &program(",[-],[>]")),
        vec![
            Ir::Read,
            Ir::Open,
            Ir::Sub(1),
            Ir::Close,
            Ir::Read,
            Ir::Scan(Dir::Right)
        ]
    );
    assert_eq!(
        optimize_with(only(false, false, false, true), &program(",[-],[>]")),
        vec![
            Ir::Read,
            Ir::Clear,
            Ir::Read,
            Ir::Open,
            Ir::Shift(Dir::Right, 1),
            Ir::Close
        ]
    );
    assert_eq!(
        optimize_with(OptConfig::default(), &ast),
        vec![
            Ir::Add(2),
            Ir::Clear,
            Ir::Read,
            Ir::Clear,
            Ir::Read,
            Ir::Scan(Dir::Right),
            Ir::Read,
            Ir::Copy(Dir::Right, 1),
            Ir::Clear
        ]
    );
}

#[test]
fn multiply_program_is_collapsed() {
    assert_eq!(
        optimize(OptLevel::Aggressive, &program("++++++[>++++++++++<-]>.")),
        vec![
            Ir::Add(6),
            Ir::Mul(Dir::Right, 1, 10),
            Ir::Clear,
            Ir::Shift(Dir::Right, 1),
            Ir::Write
        ]
    );
}

#[test]
fn each_pass_twice_is_the_pass_once() {
    let texts = [
        "",
        "[x][y]+[-][+][[-]][>][<]>[->+<][-[->+<]]",
        ",[[->+<]>[-]<[>]],[->++>---<<][[-]]",
        "[[[-]]][[>]]+[[->+<]][-][-]",
        "+[>[-]<[[->+<]>]-]<<>>.",
    ];
    for text in texts {
        let ast = program(text);
        let once = comment_loop_opt(&ast);
        assert_eq!(comment_loop_opt(&once), once);
        let once = unused_loop_opt(&ast);
        assert_eq!(unused_loop_opt(&once), once);
        let once = contract_opt(&ast);
        assert_eq!(contract_opt(&once), once);
        let once = clear_loop_opt(&ast);
        assert_eq!(clear_loop_opt(&once), once);
        let once = scan_loop_opt(&ast);
        assert_eq!(scan_loop_opt(&once), once);
        let once = copy_mul_div_loop_opt(&ast);
        assert_eq!(copy_mul_div_loop_opt(&once), once);
    }
    let nested = copy_mul_div_loop_opt(&program(",[[-]]"));
    assert_eq!(nested, vec![Ir::Read, Ir::Open, Ir::Clear, Ir::Close]);
    assert_eq!(copy_mul_div_loop_opt(&nested), nested);
}
