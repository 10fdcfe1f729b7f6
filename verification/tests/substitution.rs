use jar_remap::mapping::{Mapping, MappingSet};
use jar_remap::substitute::{remap_category_exec, remap_text_exec};
use jar_remap::tokenizer::{find_tokens, Category};

fn b(s: &str) -> Vec<u8> {
    s.as_bytes().to_vec()
}

fn fields_set(pairs: &[(&str, &str)]) -> MappingSet {
    let mut fields = Mapping::new();
    for (tok, name) in pairs {
        fields.insert(b(tok), b(name));
    }
    MappingSet { fields, methods: Mapping::new(), params: Mapping::new() }
}

#[test]
fn field_tokens_are_found_with_spans() {
    let spans = find_tokens(&b("x field_12ab_ y"), Category::Field);
    assert_eq!(spans, vec![(2, 13)]);
}

#[test]
fn method_and_param_tokens_are_found() {
    assert_eq!(find_tokens(&b("func_3x"), Category::Method), vec![(0, 7)]);
    assert_eq!(find_tokens(&b("p_1_2_"), Category::Param), vec![(0, 6)]);
}

#[test]
fn incomplete_tokens_do_not_match() {
    assert_eq!(find_tokens(&b("field_ab"), Category::Field), vec![]);
    assert_eq!(find_tokens(&b("field_12"), Category::Field), Vec::<(usize, usize)>::new());
    assert_eq!(find_tokens(&b("p_1_x_"), Category::Param), vec![]);
    assert_eq!(find_tokens(&b("p_1_2x"), Category::Param), vec![]);
}

#[test]
fn single_token_is_replaced_and_the_rest_is_untouched() {
    let ms = fields_set(&[("field_123abc", "playerHealth")]);
    let out = remap_text_exec(&b("int field_123abc = 5;"), &ms);
    assert_eq!(out, b("int playerHealth = 5;"));
}

#[test]
fn adjacent_tokens_keep_the_single_byte_gap() {
    let ms = fields_set(&[("field_1a", "x"), ("field_2b", "y")]);
    let out = remap_text_exec(&b("field_1a,field_2b"), &ms);
    assert_eq!(out, b("x,y"));
}

#[test]
fn back_to_back_tokens_lose_no_byte() {
    // the greedy optional underscore belongs to the first match, so the
    // first token here is `field_1a_`, which is not mapped
    let ms = fields_set(&[("field_1a", "x"), ("field_2b", "y")]);
    let out = remap_text_exec(&b("field_1a_field_2b"), &ms);
    assert_eq!(out, b("field_1a_y"));
    let with_underscore = fields_set(&[("field_1a_", "x"), ("field_2b", "y")]);
    let out2 = remap_text_exec(&b("field_1a_field_2b"), &with_underscore);
    assert_eq!(out2, b("xy"));
}

#[test]
fn unmapped_token_passes_through_unchanged() {
    let ms = fields_set(&[("field_1a", "x")]);
    let out = remap_text_exec(&b("keep field_999zzz here"), &ms);
    assert_eq!(out, b("keep field_999zzz here"));
}

#[test]
fn empty_mappings_reproduce_the_buffer_byte_identically() {
    let ms = MappingSet::empty();
    let input = b("field_1a func_2b p_1_2_ and plain text\n\0\t");
    let out = remap_text_exec(&input, &ms);
    assert_eq!(out, input);
}

#[test]
fn no_match_fast_path_keeps_trailing_content() {
    let ms = fields_set(&[("field_1a", "x")]);
    let input = b("nothing to see here");
    let out = remap_text_exec(&input, &ms);
    assert_eq!(out, input);
}

#[test]
fn second_application_is_idempotent_for_stable_names() {
    let ms = fields_set(&[("field_1a", "alpha"), ("field_2b", "beta")]);
    let input = b("field_1a + field_2b;");
    let once = remap_text_exec(&input, &ms);
    let twice = remap_text_exec(&once, &ms);
    assert_eq!(once, b("alpha + beta;"));
    assert_eq!(twice, once);
}

#[test]
fn the_three_categories_substitute_in_sequence() {
    let mut fields = Mapping::new();
    fields.insert(b("field_1a"), b("hp"));
    let mut methods = Mapping::new();
    methods.insert(b("func_2do"), b("update"));
    let mut params = Mapping::new();
    params.insert(b("p_1_2_"), b("delta"));
    let ms = MappingSet { fields, methods, params };
    let out = remap_text_exec(&b("func_2do(p_1_2_, field_1a)"), &ms);
    assert_eq!(out, b("update(delta, hp)"));
}

#[test]
fn category_pass_only_touches_its_own_pattern() {
    let mut methods = Mapping::new();
    methods.insert(b("func_1a"), b("run"));
    let out = remap_category_exec(&b("field_1a func_1a"), Category::Method, &methods);
    assert_eq!(out, b("field_1a run"));
}

#[test]
fn replacement_may_change_length_in_both_directions() {
    let ms = fields_set(&[("field_1a", "averyverylongname"), ("field_2b", "s")]);
    let out = remap_text_exec(&b("field_1a|field_2b"), &ms);
    assert_eq!(out, b("averyverylongname|s"));
}
