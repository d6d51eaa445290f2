//! The recipe grammar and its text form.
use pizza_factory::protocol::ActionDef;
use pizza_factory::recipe::parser::find_repeat_caret;
use pizza_factory::recipe::parser::flatten_recipe;
use pizza_factory::recipe::parser::parse_action;
use pizza_factory::recipe::parser::parse_parallel_step;
use pizza_factory::recipe::parser::parse_params;
use pizza_factory::recipe::parser::parse_recipe;
use pizza_factory::recipe::parser::parse_recipes;
use pizza_factory::recipe::parser::parse_repeated_step;
use pizza_factory::recipe::parser::parse_step;
use pizza_factory::recipe::parser::split_parallel_actions;
use pizza_factory::recipe::parser::ParseError;
use pizza_factory::recipe::Recipe;
use pizza_factory::recipe::Step;
use pizza_factory::string_map::StringMap;

fn chars(s: &str) -> Vec<char> {
    s.chars().collect()
}

const EXAMPLES: &str = "Pepperoni =
    MakeDough
    -> AddBase(base_type=tomato)
    -> AddCheese(amount=2)
    -> AddPepperoni(slices=12)
    -> Bake(duration=6)

Margherita =
    MakeDough
    -> AddBase(base_type=tomato)
    -> [AddCheese(amount=2), AddBasil(leaves=3)]
    -> Bake(duration=5)
    -> AddOliveOil

QuattroFormaggi =
    MakeDough
    -> AddBase(base_type=cream)
    -> AddCheese(amount=1)^4
    -> Bake(duration=6)
    -> AddOliveOil

Funghi =
    MakeDough
    -> AddBase(base_type=tomato)
    -> AddMushrooms(amount=4)
    -> Bake(duration=6)

Marinara =
    MakeDough
    -> AddBase(base_type=tomato)
    -> [AddGarlic(cloves=2), AddOregano(amount=1)]
    -> Bake(duration=5)
    -> AddOliveOil
";

#[test]
fn params_empty() {
    let result = parse_params(&chars("")).unwrap();
    assert!(result.is_empty());
}

#[test]
fn params_single() {
    let result = parse_params(&chars("base_type=tomato")).unwrap();
    assert_eq!(result.get("base_type").unwrap(), "tomato");
}

#[test]
fn params_multiple() {
    let result = parse_params(&chars("slices=12")).unwrap();
    assert_eq!(result.get("slices").unwrap(), "12");
}

#[test]
fn params_malformed() {
    assert!(matches!(
        parse_params(&chars("bad")),
        Err(ParseError::MalformedParam { .. })
    ));
}

#[test]
fn params_two_keys_and_later_value_wins() {
    let result = parse_params(&chars(" slices = 12 , duration=6,slices=8")).unwrap();
    assert_eq!(result.len(), 2);
    assert_eq!(result.get("slices").unwrap(), "8");
    assert_eq!(result.get("duration").unwrap(), "6");
    assert_eq!(
        parse_params(&chars("a=1, bad ,c")).unwrap_err(),
        ParseError::MalformedParam { token: "bad".to_string() }
    );
}

#[test]
fn action_no_params() {
    let a = parse_action(&chars("MakeDough"), 1).unwrap();
    assert_eq!(a.name, "MakeDough");
    assert!(a.params.is_empty());
}

#[test]
fn action_with_params() {
    let a = parse_action(&chars("AddBase(base_type=tomato)"), 1).unwrap();
    assert_eq!(a.name, "AddBase");
    assert_eq!(a.params.get("base_type").unwrap(), "tomato");
}

#[test]
fn action_with_unmatched_parentheses() {
    assert_eq!(
        parse_action(&chars("AddBase(x=1"), 3).unwrap_err(),
        ParseError::UnmatchedBracket { step: 3 }
    );
    assert_eq!(
        parse_action(&chars("AddBase)x=1("), 4).unwrap_err(),
        ParseError::UnmatchedBracket { step: 4 }
    );
    let nested = parse_action(&chars("A(x=f(1),y=2)"), 1).unwrap();
    assert_eq!(nested.params.get("x").unwrap(), "f(1)");
}

#[test]
fn split_two_actions() {
    let tokens = split_parallel_actions(&chars("AddCheese(amount=2), AddBasil(leaves=3)"));
    assert_eq!(tokens.len(), 2);
    assert_eq!(tokens[0], "AddCheese(amount=2)");
    assert_eq!(tokens[1], "AddBasil(leaves=3)");
}

#[test]
fn split_respects_paren_depth() {
    let tokens = split_parallel_actions(&chars("A(x=1,y=2), B"));
    assert_eq!(tokens.len(), 2);
    assert_eq!(tokens[0], "A(x=1,y=2)");
}

#[test]
fn split_keeps_inner_empty_tokens_only() {
    assert_eq!(split_parallel_actions(&chars("A,,B, ")), vec!["A", "", "B"]);
    assert!(split_parallel_actions(&chars("  ")).is_empty());
    assert_eq!(split_parallel_actions(&chars("A), B")), vec!["A)", "B"]);
}

#[test]
fn caret_found() {
    assert!(find_repeat_caret(&chars("AddCheese(amount=1)^4")).is_some());
    assert_eq!(find_repeat_caret(&chars("AddCheese(amount=1)^4")), Some(19));
}

#[test]
fn caret_absent() {
    assert!(find_repeat_caret(&chars("AddOliveOil")).is_none());
}

#[test]
fn caret_no_digits_is_none() {
    assert!(find_repeat_caret(&chars("AddCheese^")).is_none());
}

#[test]
fn caret_inside_parentheses_or_before_other_text_is_none() {
    assert!(find_repeat_caret(&chars("A(x=^4")).is_none());
    assert!(find_repeat_caret(&chars("A^4b")).is_none());
    assert_eq!(find_repeat_caret(&chars("A^x^12")), Some(3));
}

#[test]
fn step_single() {
    assert!(matches!(parse_step(&chars("Bake(duration=6)"), 1).unwrap(), Step::Single(_)));
}

#[test]
fn step_parallel() {
    assert!(matches!(
        parse_step(&chars("[AddCheese(amount=2), AddBasil(leaves=3)]"), 3).unwrap(),
        Step::Parallel(_)
    ));
}

#[test]
fn step_repeated() {
    let step = parse_step(&chars("AddCheese(amount=1)^4"), 3).unwrap();
    assert!(matches!(step, Step::Repeated(_, 4)));
}

#[test]
fn parallel_step_brackets() {
    for body in ["[A", "[]", "[ , ]", "[", "[A]", "[A(x=1,y=2)]", "[A, ]", "[,A]"] {
        assert_eq!(
            parse_parallel_step(&chars(body), 2).unwrap_err(),
            ParseError::UnmatchedBracket { step: 2 },
            "{body}"
        );
    }
    match parse_parallel_step(&chars("[A, ,B(x=1)]"), 2).unwrap() {
        Step::Parallel(actions) => {
            assert_eq!(actions.len(), 2);
            assert_eq!(actions[1].name, "B");
        }
        other => panic!("expected a parallel step, got {other:?}"),
    }
}

#[test]
fn repeat_counts_are_checked() {
    assert_eq!(
        parse_step(&chars("A^0"), 5).unwrap_err(),
        ParseError::InvalidRepeat { step: 5 }
    );
    assert_eq!(
        parse_step(&chars("A^4294967296"), 5).unwrap_err(),
        ParseError::InvalidRepeat { step: 5 }
    );
    match parse_repeated_step(&chars("A ^007"), 2, 1).unwrap() {
        Step::Repeated(a, n) => {
            assert_eq!(a.name, "A");
            assert_eq!(n, 7);
        }
        other => panic!("expected a repeated step, got {other:?}"),
    }
    assert!(matches!(parse_step(&chars("A^4294967295"), 5).unwrap(), Step::Repeated(_, u32::MAX)));
}

#[test]
fn repeat_suffix_without_a_count() {
    for body in ["AddCheese^", "A^x", "A^4b", "^", "A(x=1)^", "A(x=1)^+4", "A^2(x=1)^"] {
        assert_eq!(
            parse_step(&chars(body), 3).unwrap_err(),
            ParseError::InvalidRepeat { step: 3 },
            "{body}"
        );
    }
    assert_eq!(
        parse_recipes("P = A -> AddCheese^").unwrap_err(),
        ParseError::InvalidRepeat { step: 2 }
    );
    match parse_step(&chars("A(x=2^3)"), 1).unwrap() {
        Step::Single(a) => assert_eq!(a.params.get("x").unwrap(), "2^3"),
        other => panic!("expected a single step, got {other:?}"),
    }
    assert!(matches!(parse_step(&chars("A^x^12"), 1).unwrap(), Step::Repeated(_, 12)));
}

#[test]
fn caret_before_a_parenthesis_is_no_suffix() {
    let single = |body: &str| match parse_step(&chars(body), 1).unwrap() {
        Step::Single(a) => a,
        other => panic!("expected a single step, got {other:?}"),
    };
    let a = single("A^2(x=1)");
    assert_eq!(a.name, "A^2");
    assert_eq!(a.params.get("x").unwrap(), "1");
    let a = single("Foo^3()");
    assert_eq!(a.name, "Foo^3");
    assert!(a.params.is_empty());
    assert_eq!(single("A^)").name, "A^)");
    assert_eq!(single("A(x=1)^(2)").params.get("x").unwrap(), "1)^(2");
    assert!(matches!(parse_step(&chars("A^2(x=1)^3"), 1).unwrap(), Step::Repeated(_, 3)));

    let recipes = parse_recipes("R = A^2(x=1) -> A(z=(,a=)^)").unwrap();
    assert_eq!(recipes[0].source, "R = A^2(x=1) -> A(a=)^,z=()");
    assert_eq!(parse_recipes(&recipes[0].source).unwrap(), recipes);
}

#[test]
fn repeated_step_reads_any_suffix() {
    for body in ["A^", "A^x", "A^+", "A^-1", "A^ 4", "A^0", "A^+0", "A^4294967296", "A(b)^"] {
        let caret = body.find('^').unwrap();
        assert_eq!(
            parse_repeated_step(&chars(body), caret, 7).unwrap_err(),
            ParseError::InvalidRepeat { step: 7 },
            "{body}"
        );
    }
    match parse_repeated_step(&chars("A^+4"), 1, 7).unwrap() {
        Step::Repeated(a, n) => {
            assert_eq!(a.name, "A");
            assert_eq!(n, 4);
        }
        other => panic!("expected a repeated step, got {other:?}"),
    }
    assert!(matches!(parse_repeated_step(&chars("A#4"), 1, 7).unwrap(), Step::Repeated(_, 4)));
    assert_eq!(
        parse_repeated_step(&chars("A(b)^2"), 4, 7).unwrap_err(),
        ParseError::MalformedParam { token: "b".to_string() }
    );
}

#[test]
fn joined_texts() {
    let texts = [
        "",
        "\n",
        "\r",
        "\n\n\n",
        "A = X",
        "A = X\n",
        "A = X\r",
        "\nB = Y -> Z\n\nC = [X, Y]\n",
        "D = X\r\n\r\nE = Y\r\n",
        "F = X(y)",
        "nothing",
    ];
    for a in texts {
        for b in texts {
            let joined = parse_recipes(&format!("{a}\n\n{b}"));
            let apart = match (parse_recipes(a), parse_recipes(b)) {
                (Err(e), _) => Err(e),
                (Ok(_), Err(e)) => Err(e),
                (Ok(mut x), Ok(y)) => {
                    x.extend(y);
                    Ok(x)
                }
            };
            assert_eq!(joined, apart, "{a:?} and {b:?}");
        }
    }
    assert_eq!(parse_recipes("A = X\r\n\nB = Y").unwrap().len(), 2);
}

#[test]
fn parse_pepperoni_multiline() {
    let input = "Pepperoni =\n    MakeDough\n    -> AddBase(base_type=tomato)\n    -> AddCheese(amount=2)\n    -> AddPepperoni(slices=12)\n    -> Bake(duration=6)";
    let recipes = parse_recipes(input).unwrap();
    assert_eq!(recipes.len(), 1);
    assert_eq!(recipes[0].name, "Pepperoni");
    assert_eq!(recipes[0].steps.len(), 5);
}

#[test]
fn parse_pepperoni_flat_wire_format() {
    let wire = "Pepperoni = MakeDough -> AddBase(base_type=tomato) -> AddCheese(amount=2) -> AddPepperoni(slices=12) -> Bake(duration=6)";
    let recipes = parse_recipes(wire).unwrap();
    assert_eq!(recipes[0].name, "Pepperoni");
    assert_eq!(recipes[0].steps.len(), 5);
}

#[test]
fn multiline_and_flat_produce_same_source() {
    let multiline = "Pepperoni =\n    MakeDough\n    -> AddBase(base_type=tomato)\n    -> Bake(duration=6)";
    let flat = "Pepperoni = MakeDough -> AddBase(base_type=tomato) -> Bake(duration=6)";
    let r_multi = &parse_recipes(multiline).unwrap()[0];
    let r_flat = &parse_recipes(flat).unwrap()[0];
    assert_eq!(r_multi.source, r_flat.source);
    assert_eq!(r_multi.source, flat);
}

#[test]
fn source_is_valid_dsl_that_roundtrips() {
    let input = "Pepperoni =\n    MakeDough\n    -> AddBase(base_type=tomato)\n    -> AddCheese(amount=2)\n    -> AddPepperoni(slices=12)\n    -> Bake(duration=6)";
    let original = &parse_recipes(input).unwrap()[0];
    let reparsed = &parse_recipes(&original.source).unwrap()[0];
    assert_eq!(original.source, reparsed.source);
    assert_eq!(original.steps.len(), reparsed.steps.len());
    assert_eq!(original, reparsed);
}

#[test]
fn every_example_reads_back_from_its_source() {
    for recipe in parse_recipes(EXAMPLES).unwrap() {
        let back = parse_recipes(&recipe.source).unwrap();
        assert_eq!(back, vec![recipe]);
    }
}

#[test]
fn parameters_are_written_in_key_order() {
    let recipes = parse_recipes("X = A( b = 2 , a=1 )->[ C(z=1,y=),D ]->E^03").unwrap();
    assert_eq!(recipes[0].source, "X = A(a=1,b=2) -> [C(y=,z=1), D] -> E^3");
    assert_eq!(recipes[0].to_dsl_string(), recipes[0].source);
    assert_eq!(parse_recipes(&recipes[0].source).unwrap(), recipes);
}

#[test]
fn parse_margherita_parallel() {
    let input = "Margherita =\n    MakeDough\n    -> AddBase(base_type=tomato)\n    -> [AddCheese(amount=2), AddBasil(leaves=3)]\n    -> Bake(duration=5)\n    -> AddOliveOil";
    let recipes = parse_recipes(input).unwrap();
    assert_eq!(recipes[0].name, "Margherita");
    assert!(matches!(recipes[0].steps[2], Step::Parallel(_)));
}

#[test]
fn parse_quattro_formaggi_repeated() {
    let input = "QuattroFormaggi =\n    MakeDough\n    -> AddBase(base_type=cream)\n    -> AddCheese(amount=1)^4\n    -> Bake(duration=6)\n    -> AddOliveOil";
    let recipes = parse_recipes(input).unwrap();
    assert!(matches!(recipes[0].steps[2], Step::Repeated(_, 4)));
}

#[test]
fn parse_multiple_recipes() {
    let input = "Pepperoni =\n    MakeDough\n    -> Bake(duration=6)\n\nMarinara =\n    MakeDough\n    -> AddOliveOil";
    let recipes = parse_recipes(input).unwrap();
    assert_eq!(recipes.len(), 2);
    assert_eq!(recipes[0].name, "Pepperoni");
    assert_eq!(recipes[1].name, "Marinara");
}

#[test]
fn windows_line_ends_and_blank_blocks() {
    let recipes = parse_recipes("\r\n\r\nA = X\r\n\r\n\r\n\r\nB =\r\n Y\r\n -> Z\r\n").unwrap();
    assert_eq!(recipes.len(), 2);
    assert_eq!(recipes[0].source, "A = X");
    assert_eq!(recipes[1].source, "B = Y -> Z");
    assert!(parse_recipes("").unwrap().is_empty());
    assert!(parse_recipes(" \n\n \t ").unwrap().is_empty());
}

#[test]
fn recipe_errors_and_their_messages() {
    let e = parse_recipes("Pepperoni").unwrap_err();
    assert_eq!(e, ParseError::MissingEquals);
    assert_eq!(e.message(), "recipe block is missing '='");

    let e = parse_recipes(" = MakeDough").unwrap_err();
    assert_eq!(e, ParseError::EmptyName);
    assert_eq!(e.message(), "recipe name is empty");

    let e = parse_recipe(&chars("Pepperoni = -> ->")).unwrap_err();
    assert_eq!(e, ParseError::NoSteps { recipe: "Pepperoni".to_string() });
    assert_eq!(e.message(), "recipe 'Pepperoni' has no steps");

    let e = parse_recipes("P = A -> [B").unwrap_err();
    assert_eq!(e, ParseError::UnmatchedBracket { step: 2 });
    assert_eq!(e.message(), "step 2: unmatched '[' or ']' in parallel step");

    let e = parse_recipes("P = A -> B -> C^0").unwrap_err();
    assert_eq!(e, ParseError::InvalidRepeat { step: 3 });
    assert_eq!(e.message(), "step 3: invalid or zero repeat count after '^'");

    let e = parse_recipes("P = A(oops)").unwrap_err();
    assert_eq!(e, ParseError::MalformedParam { token: "oops".to_string() });
    assert_eq!(e.message(), "malformed parameter 'oops': expected key=value");
}

#[test]
fn the_first_error_is_reported() {
    assert_eq!(
        parse_recipes("A = X\n\nB\n\n = Y").unwrap_err(),
        ParseError::MissingEquals
    );
    assert_eq!(
        parse_recipes("A = X(y) -> Z^0").unwrap_err(),
        ParseError::MalformedParam { token: "y".to_string() }
    );
}

#[test]
fn flatten_repeated_expands() {
    let input = "QuattroFormaggi =\n    MakeDough\n    -> AddBase(base_type=cream)\n    -> AddCheese(amount=1)^4\n    -> Bake(duration=6)\n    -> AddOliveOil";
    let recipes = parse_recipes(input).unwrap();
    let seq = flatten_recipe(&recipes[0]);
    assert_eq!(seq.len(), 8);
    assert_eq!(seq[2].name, "AddCheese");
    assert_eq!(seq[3].name, "AddCheese");
    assert_eq!(seq[4].name, "AddCheese");
    assert_eq!(seq[5].name, "AddCheese");
}

#[test]
fn flatten_parallel_inlines() {
    let input = "Margherita =\n    MakeDough\n    -> AddBase(base_type=tomato)\n    -> [AddCheese(amount=2), AddBasil(leaves=3)]\n    -> Bake(duration=5)\n    -> AddOliveOil";
    let recipes = parse_recipes(input).unwrap();
    let seq = flatten_recipe(&recipes[0]);
    assert_eq!(seq.len(), 6);
    assert_eq!(seq[2].name, "AddCheese");
    assert_eq!(seq[3].name, "AddBasil");
}

#[test]
fn flatten_full_examples_file() {
    let recipes = parse_recipes(EXAMPLES).unwrap();
    assert_eq!(recipes.len(), 5);

    let pepperoni = recipes.iter().find(|r| r.name == "Pepperoni").unwrap();
    assert_eq!(flatten_recipe(pepperoni).len(), 5);

    let qf = recipes.iter().find(|r| r.name == "QuattroFormaggi").unwrap();
    assert_eq!(flatten_recipe(qf).len(), 8);
}

#[test]
fn flattening_a_recipe_in_two_parts() {
    let action = |name: &str| ActionDef { name: name.to_string(), params: StringMap::new() };
    let recipe = |steps: Vec<Step>| Recipe { name: "R".to_string(), steps, source: String::new() };
    let front = || vec![Step::Single(action("A")), Step::Repeated(action("B"), 2)];
    let back = || vec![Step::Parallel(vec![action("C"), action("D")])];
    let mut both = front();
    both.extend(back());
    let mut parts = flatten_recipe(&recipe(front()));
    parts.extend(flatten_recipe(&recipe(back())));
    assert_eq!(flatten_recipe(&recipe(both)), parts);
    assert_eq!(parts.len(), 5);
}
