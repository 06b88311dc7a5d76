use mig::correspondence::correspond;
use mig::correspondence::links::LeafRelation;
use mig::diff::diff_file;
use mig::frontend::project::project_language;
use mig::frontend::syntax_pair;
use mig::grammar::{parse_entries, HighlightSource, ParseFailure};
use mig::presentation::{DiffMark, ReviewRow};
use mig::source::Source;
use mig::syntax::{
    ContentChannel, CorrespondenceRole, Language, NodeId, ReviewMode, SyntaxClass, SyntaxPair,
    SyntaxTree,
};

fn pair_of(path: &str, before: &str, after: &str) -> SyntaxPair {
    syntax_pair(path, before, after, false).expect("frontend setup")
}

#[test]
fn invalid_highlight_query_is_a_setup_error() {
    let result =
        parse_entries(Language::Rust, "fn main() {}\n", &[HighlightSource::Html], 1_000, false);

    assert!(matches!(result, Err(ParseFailure::Setup)));
}

#[test]
fn syntax_node_budget_is_checked_before_projection_allocation() {
    let parse = |limit: usize| {
        parse_entries(Language::Rust, "fn main() { work(); }\n", &[HighlightSource::Rust], limit, false)
    };

    assert!(matches!(parse(2), Err(ParseFailure::Complexity)));
    assert!(parse(1_000).is_ok());
}

#[test]
fn declarations_and_calls_expose_local_semantic_identities() {
    let source = Source::new("\
struct Alpha { int beta; };
static int *gamma(const struct Alpha *alpha) {
    return alpha->zeta(delta(alpha->beta));
}
");
    let Ok(tree) = project_language(Language::C, source) else {
        panic!("C source must project");
    };
    let identities = tree
        .nodes
        .iter()
        .enumerate()
        .filter(|(_, node)| {
            matches!(
                node.kind,
                "call_expression" | "field_declaration" | "function_definition"
            )
        })
        .map(|(index, node)| {
            (
                node.kind,
                tree.identity_text(index),
            )
        })
        .collect::<Vec<_>>();

    assert_eq!(
        identities,
        [
            ("field_declaration", Some("beta")),
            ("function_definition", Some("gamma")),
            ("call_expression", Some("zeta")),
            ("call_expression", Some("delta")),
        ]
    );
}

#[test]
fn top_level_comments_and_preprocessor_forms_are_independent_review_units() {
    let source = Source::new("\
#include <alpha.h>
#define BETA 1
// gamma
");
    let Ok(tree) = project_language(Language::C, source) else {
        panic!("C source must project");
    };
    let units = tree
        .review_units()
        .into_iter()
        .map(|id| (id, tree.node(id)))
        .map(|(id, node)| {
            (
                node.kind,
                tree.identity_text(id),
                node.leaf.map(|leaf| leaf.channel),
            )
        })
        .collect::<Vec<_>>();

    assert_eq!(
        units,
        [
            ("preproc_include", Some("<alpha.h>"), None),
            ("preproc_def", Some("BETA"), None),
            ("comment", None, Some(ContentChannel::Comment)),
        ]
    );
}

#[test]
fn bodyless_modules_are_compact_but_inline_modules_are_structural() {
    let source = Source::new("mod external;\nmod inline { fn payload() {} }\n");
    let tree = project_language(Language::Rust, source);
    let Ok(tree) = tree else {
        panic!("Rust source must project");
    };
    let modules = tree
        .review_units()
        .into_iter()
        .map(|id| tree.node(id))
        .filter(|node| node.kind == "mod_item")
        .map(|node| node.review.as_ref().unwrap().mode)
        .collect::<Vec<_>>();

    assert_eq!(modules, [ReviewMode::Compact, ReviewMode::StructureAware]);
}

#[test]
fn only_outer_attributes_attach_to_the_following_sibling() {
    let source =
        Source::new("mod tests {\n#![allow(dead_code)]\n#[test]\nfn payload() {}\n}\n");
    let tree = project_language(Language::Rust, source);
    let Ok(tree) = tree else {
        panic!("Rust source must project");
    };
    let outer = tree
        .nodes
        .iter()
        .find(|node| node.kind == "attribute_item")
        .expect("outer attribute");
    let inner = tree
        .nodes
        .iter()
        .find(|node| node.kind == "inner_attribute_item")
        .expect("inner attribute");
    let module = tree
        .nodes
        .iter()
        .position(|node| node.kind == "mod_item")
        
        .expect("module owner");
    let function = tree
        .nodes
        .iter()
        .position(|node| node.kind == "function_item")
        
        .expect("function owner");

    assert_eq!(outer.decoration_owner, Some(function));
    assert_eq!(inner.decoration_owner, Some(module));
}

#[test]
fn outer_decorations_cross_independent_comments_to_their_declared_owner() {
    let source = Source::new("\
#[derive(Clone)]
// explanatory comment
/// Alpha documentation.
struct Alpha { value: u8 }

#[derive(Clone)]
/// Beta documentation.
struct Beta { value: u16 }
");
    let tree = project_language(Language::Rust, source);
    let Ok(tree) = tree else {
        panic!("Rust source must project");
    };
    let node_on_line = |kind: &str, line: usize| {
        tree
            .nodes
            .iter()
            .position(|node| node.kind == kind && node.lines.start == line)
            
            .expect("expected syntax node")
    };
    let alpha = node_on_line("struct_item", 4);
    let beta = node_on_line("struct_item", 8);
    let alpha_attribute = node_on_line("attribute_item", 1);
    let ordinary_comment = node_on_line("line_comment", 2);
    let alpha_docs = node_on_line("line_comment", 3);
    let beta_attribute = node_on_line("attribute_item", 6);
    let beta_docs = node_on_line("line_comment", 7);

    assert_eq!(
        tree.node(alpha_attribute).decoration_owner,
        Some(alpha)
    );
    assert_eq!(tree.node(alpha_docs).decoration_owner, Some(alpha));
    assert_eq!(tree.node(ordinary_comment).decoration_owner, None);
    assert_eq!(tree.node(beta_attribute).decoration_owner, Some(beta));
    assert_eq!(tree.node(beta_docs).decoration_owner, Some(beta));
}

#[test]
fn nested_outer_and_inner_docs_choose_following_and_enclosing_owners() {
    let source = Source::new("\
mod tests {
#![allow(dead_code)]
//! Module line documentation.
/*! Module block documentation. */
#[test]
/// Alpha documentation.
fn alpha() {}
}
");
    let tree = project_language(Language::Rust, source);
    let Ok(tree) = tree else {
        panic!("Rust source must project");
    };
    let node_on_line = |kind: &str, line: usize| {
        tree
            .nodes
            .iter()
            .position(|node| node.kind == kind && node.lines.start == line)
            
            .expect("expected syntax node")
    };
    let module = node_on_line("mod_item", 1);
    let inner_attribute = node_on_line("inner_attribute_item", 2);
    let inner_line_docs = node_on_line("line_comment", 3);
    let inner_block_docs = node_on_line("block_comment", 4);
    let outer_attribute = node_on_line("attribute_item", 5);
    let outer_docs = node_on_line("line_comment", 6);
    let function = node_on_line("function_item", 7);

    for decoration in [inner_attribute, inner_line_docs, inner_block_docs] {
        assert_eq!(tree.node(decoration).decoration_owner, Some(module));
    }
    for decoration in [outer_attribute, outer_docs] {
        assert_eq!(tree.node(decoration).decoration_owner, Some(function));
    }
}

#[test]
fn line_projection_is_an_exact_leaf_cst_including_terminators() {
    let pair = pair_of("notes.txt", "a\r\n\nlast", "");

    assert_eq!(pair.before.language, Language::Lines);
    let root = pair.before.node(pair.before.root);
    let payloads = root
        .children
        .iter()
        .map(|id| pair.before.leaf_text(*id).unwrap())
        .collect::<Vec<_>>();
    assert_eq!(payloads, ["a\r\n", "\n", "last"]);
    assert!(root.children.iter().all(|id| {
        pair.before
            .node(*id)
            .review
            .as_ref()
            .is_some_and(|unit| unit.mode == ReviewMode::Linewise)
    }));
}

#[test]
fn one_bad_parse_falls_both_revisions_back_to_lines() {
    let pair = pair_of("lib.rs", "fn good() {}\n", "fn {\n");

    assert_eq!(pair.before.language, Language::Lines);
    assert_eq!(pair.after.language, Language::Lines);
}

#[test]
fn recovered_html_places_the_image_under_the_parser_created_div() {
    let before = "<p>\n \t<img />\n</p>\n";
    let after = "\
<p>
\t<div
\t\tid=\"alpha\"
\t\tdata-beta=\"gamma\"\t
\t>
 \t\t<img />
\t</div>
</p>
";
    let pair = pair_of("alpha.html", before, after);

    assert_eq!(pair.before.language, Language::Html);
    assert_eq!(pair.after.language, Language::Html);
    let before_img = node_with_identity(&pair.before, "img");
    let before_paragraph = node_with_identity(&pair.before, "p");
    let after_img = node_with_identity(&pair.after, "img");
    let after_paragraph = node_with_identity(&pair.after, "p");
    let after_div = node_with_identity(&pair.after, "div");

    assert!(is_descendant(&pair.before, before_img, before_paragraph));
    assert!(is_descendant(&pair.after, after_img, after_div));
    assert!(!is_descendant(&pair.after, after_img, after_paragraph));
}

#[test]
fn html_nonlocal_raw_text_errors_remain_line_fallback() {
    let before = "<pre>\n<textarea>\n</pre>\n  <img>\n</textarea>\n</pre>\n";
    let after = "\
<pre>
<textarea>
</pre>
  <div>
    <img>
  </div>
</textarea>
</pre>
";
    let pair = pair_of("view.html", before, after);

    assert_eq!(pair.before.language, Language::Lines);
    assert_eq!(pair.after.language, Language::Lines);
}

#[test]
fn generated_source_never_enters_a_language_grammar() {
    let pair = syntax_pair("broken.rs", "fn {", "fn good() {}", true).expect("frontend setup");

    assert_eq!(pair.before.language, Language::Lines);
    assert_eq!(pair.after.language, Language::Lines);
}

#[test]
fn web_extensions_select_real_grammars() {
    let cases = [
        ("view.html", "<main>ok</main>", Language::Html),
        ("view.css", ".card { color: red; }", Language::Css),
        ("view.ts", "const n: number = 1;", Language::TypeScript),
        ("view.tsx", "const x = <Card />;", Language::Tsx),
        ("view.js", "const n = 1;", Language::JavaScript),
        ("view.jsx", "const x = <Card />;", Language::Jsx),
    ];

    for (path, source, language) in cases {
        let pair = pair_of(path, source, source);
        assert_eq!(pair.before.language, language, "{path}");
        assert_eq!(pair.after.language, language, "{path}");
    }
}

#[test]
fn c_extensions_select_structural_function_owners() {
    let source = "\
static int alpha(void) { return 0; }
static int beta(void) { return alpha(); }
";

    for path in ["alpha.c", "alpha.h"] {
        let pair = pair_of(path, source, source);
        assert_eq!(pair.before.language, Language::C, "{path}");
        let functions = pair
            .before
            .review_units()
            .into_iter()
            .map(|id| (id, pair.before.node(id)))
            .filter(|(_, node)| node.kind == "function_definition")
            .map(|(id, node)| {
                (
                    pair.before.identity_text(id),
                    node.correspondence,
                    node.review.unwrap().mode,
                )
            })
            .collect::<Vec<_>>();

        assert_eq!(
            functions,
            [
                (
                    Some("alpha"),
                    CorrespondenceRole::HardOwner,
                    ReviewMode::StructureAware,
                ),
                (
                    Some("beta"),
                    CorrespondenceRole::HardOwner,
                    ReviewMode::StructureAware,
                ),
            ],
            "{path}"
        );
    }
}

#[test]
fn html_wrapper_and_child_are_distinct_trackable_nodes() {
    let before = "<article>\n  <img src=\"alpha.webp\">\n</article>\n";
    let after =
        "<article>\n  <div class=\"beta\">\n    <img src=\"alpha.webp\">\n  </div>\n</article>\n";
    let pair = pair_of("view.html", before, after);

    let before_img = node_with_identity(&pair.before, "img");
    let after_img = node_with_identity(&pair.after, "img");
    let after_div = node_with_identity(&pair.after, "div");
    assert_eq!(pair.before.node(before_img).kind, "element");
    assert_eq!(pair.after.node(after_img).kind, "element");
    assert!(is_descendant(&pair.after, after_img, after_div));
    assert_eq!(pair.after.review_units().len(), 1);
    assert_eq!(pair.after.review_units()[0], pair.after.root);
}

#[test]
fn whitespace_sensitive_html_is_one_exact_opaque_payload() {
    let source = "<pre>\n  <img src=\"literal\">\n</pre>\n";
    let pair = pair_of("view.html", source, source);
    let pre = node_with_identity(&pair.before, "pre");
    let pre = pair.before.node(pre);

    assert!(pre.children.is_empty());
    assert_eq!(pre.leaf.unwrap().channel, ContentChannel::Opaque);
    assert_eq!(
        pair.before.source.slice(pre.bytes.start, pre.bytes.end),
        Some(source.trim_end_matches('\n'))
    );
}

#[test]
fn html_plaintext_absorbs_apparent_closing_tags_through_eof() {
    let source = "<p>markup</p>\n<plaintext>\n</plaintext>\n<div>still literal</div>\n";
    let pair = pair_of("view.html", source, source);
    let plaintext = node_with_identity(&pair.before, "plaintext");
    let plaintext = pair.before.node(plaintext);

    assert!(plaintext.children.is_empty());
    assert_eq!(plaintext.leaf.unwrap().channel, ContentChannel::Opaque);
    assert_eq!(plaintext.bytes.end, source.len());
    assert_eq!(
        pair.before.source.slice(plaintext.bytes.start, plaintext.bytes.end),
        Some("<plaintext>\n</plaintext>\n<div>still literal</div>\n")
    );
    assert!(
        !pair
            .before
            .nodes
            .iter()
            .enumerate()
            .map(|(index, _)| index)
            .any(|id| pair.before.identity_text(id) == Some("div"))
    );
}

#[test]
fn language_review_units_are_non_overlapping_top_level_roots() {
    let cases = [
        (
            "lib.rs",
            "use crate::A;\nfn outer() {\n    // nested\n}\n// top\n",
            3,
        ),
        (
            "view.css",
            ".a {\n  /* nested */\n  color: red;\n}\n/* top */\n",
            2,
        ),
        (
            "view.ts",
            "import { a } from './a';\nfunction outer() {\n  // nested\n}\n// top\n",
            3,
        ),
    ];

    for (path, source, expected) in cases {
        let pair = pair_of(path, source, source);
        let units = pair.before.review_units();
        assert_eq!(units.len(), expected, "{path}");
        for (index, unit) in units.iter().copied().enumerate() {
            for other in units.iter().copied().skip(index + 1) {
                assert!(!is_descendant(&pair.before, unit, other), "{path}");
                assert!(!is_descendant(&pair.before, other, unit), "{path}");
            }
        }
    }
}

#[test]
fn typescript_declarator_identities_survive_edits_and_reordering() {
    let before = "export const alpha = 1;\nexport let beta = 2;\nvar gamma = 3;\n";
    let after = "var gamma = 30;\nexport let beta = 20;\nexport const alpha = 10;\n";
    let pair = pair_of("values.ts", before, after);

    assert_eq!(review_identities(&pair.before), ["alpha", "beta", "gamma"]);
    assert_eq!(review_identities(&pair.after), ["gamma", "beta", "alpha"]);
}

#[test]
fn wiring_identities_survive_reordering() {
    let rust_before = "use crate::alpha;\npub use crate::beta::Thing;\n";
    let rust_after = "pub use crate::beta::Thing;\nuse crate::alpha;\n";
    let rust = pair_of("lib.rs", rust_before, rust_after);
    assert_eq!(
        review_identities(&rust.before),
        ["crate::alpha", "crate::beta::Thing"]
    );
    assert_eq!(
        review_identities(&rust.after),
        ["crate::beta::Thing", "crate::alpha"]
    );

    let css_before = "@import \"alpha.css\" screen;\n@import url(\"beta.css\");\n";
    let css_after = "@import url(\"beta.css\");\n@import \"alpha.css\" print;\n";
    let css = pair_of("view.css", css_before, css_after);
    assert_eq!(
        review_identities(&css.before),
        ["\"alpha.css\"", "url(\"beta.css\")"]
    );
    assert_eq!(
        review_identities(&css.after),
        ["url(\"beta.css\")", "\"alpha.css\""]
    );
}

#[test]
fn css_group_statements_keep_payload_header_identities_across_body_edits() {
    let before = "@media (min-width: 1px) { .a { color: red; } }\n@supports (display: grid) { .b { display: grid; } }\n@keyframes fade { from { opacity: 0; } }\n@scope (.card) { .title { color: blue; } }\n";
    let after = "@scope (.card) { .title { color: red; } }\n@keyframes fade { to { opacity: 1; } }\n@supports (display: grid) { .b { display: block; } }\n@media (min-width: 1px) { .a { color: green; } }\n";
    let pair = pair_of("view.css", before, after);

    assert_eq!(
        review_identities(&pair.before),
        [
            "@media (min-width: 1px)",
            "@supports (display: grid)",
            "fade",
            "@scope (.card)",
        ]
    );
    assert_eq!(
        review_identities(&pair.after),
        [
            "@scope (.card)",
            "fade",
            "@supports (display: grid)",
            "@media (min-width: 1px)",
        ]
    );
    assert!(
        pair.before
            .review_units()
            .into_iter()
            .all(|id| pair.before.node(id).review.unwrap().mode == ReviewMode::StructureAware)
    );
}

#[test]
fn tree_sitter_arenas_are_byte_total_and_retain_intrinsic_numeric_prefixes() {
    let cases = [
        ("value.css", ".card { margin: 7rem; }\n"),
        ("value.html", "<div class=\"a b\">\n  <img>\n</div>\n"),
        ("value.rs", "fn value() -> usize { 7 }\n"),
        ("value.ts", "export const value = `a b`;\n"),
    ];
    for (path, source) in cases {
        let pair = pair_of(path, source, source);
        assert_byte_total(&pair.before);
    }

    let pair = pair_of("value.css", ".card { margin: 7rem; }\n", ".card { margin: 7rem; }\n");
    let digit = leaf_with_text(&pair.before, "7");
    assert_eq!(pair.before.node(digit).kind, "source_fragment");
    let leaf = pair.before.node(digit).leaf.unwrap();
    assert_eq!(leaf.syntax, SyntaxClass::Literal);
    assert_eq!(leaf.channel, ContentChannel::Syntax);
    assert!(!leaf.delimiter);
    let parent = pair.before.node(digit).parent.unwrap();
    assert_eq!(pair.before.node(parent).kind, "integer_value");
}

#[test]
fn intrinsic_css_digits_link_as_modified_and_render_as_a_replacement() {
    let before = ".card { margin: 6rem; }\n";
    let after = ".card { margin: 7rem; }\n";
    let pair = pair_of("value.css", before, after);
    let six = leaf_with_text(&pair.before, "6");
    let seven = leaf_with_text(&pair.after, "7");
    let graph = correspond(&pair);
    let link = graph.tree.leaves.before[six]
        .and_then(|index| graph.tree.leaves.links.get(index))
        .expect("numeric leaf must link");
    assert_eq!(link.after, seven);
    assert_eq!(link.relation, LeafRelation::Modified);

    let diff = diff_file("value.css", before, after).unwrap();
    assert!(diff.hunks.iter().any(|hunk| {
        hunk.rows.windows(2).any(|rows| {
            let [ReviewRow::Removed(before), ReviewRow::Added(after)] = rows else {
                return false;
            };
            before.spans.iter().any(|span| span.mark == DiffMark::Removed && span.text == "6")
                && after.spans.iter().any(|span| span.mark == DiffMark::Added && span.text == "7")
        })
    }));
}

#[test]
fn layout_and_significant_whitespace_use_distinct_channels() {
    let css = pair_of("selector.css", ".a .b { content: \"a b\"; }\n", ".a .b { content: \"a b\"; }\n");
    let selector_space = css
        .before
        .nodes
        .iter()
        .enumerate()
        .map(|(index, _)| index)
        .find(|id| {
            css.before.leaf_text(*id) == Some(" ")
                && css
                    .before
                    .node(*id)
                    .parent
                    .is_some_and(|parent| css.before.node(parent).kind == "descendant_selector")
        })
        .expect("descendant combinator whitespace must be projected");
    assert_eq!(
        css.before.node(selector_space).leaf.unwrap().channel,
        ContentChannel::Syntax
    );
    let string_content = leaf_with_text(&css.before, "a b");
    assert_eq!(
        css.before.node(string_content).leaf.unwrap().channel,
        ContentChannel::Syntax
    );

    let html = pair_of("space.html", "<div>\n  <span>a</span> <span>b</span>\n</div>\n",
        "<div>\n  <span>a</span> <span>b</span>\n</div>\n");
    assert!(html.before.nodes.iter().enumerate().any(|(index, _)| {
        let id = index;
        html.before
            .leaf_text(id)
            .is_some_and(|text| text.contains('\n') && text.trim().is_empty())
            && html.before.node(id).leaf.unwrap().channel == ContentChannel::Layout
    }));
    assert!(html.before.nodes.iter().enumerate().any(|(index, _)| {
        let id = index;
        html.before.leaf_text(id) == Some(" ")
            && html.before.node(id).leaf.unwrap().channel == ContentChannel::Syntax
    }));
}

fn node_with_identity(tree: &SyntaxTree, identity: &str) -> NodeId {
    tree
        .nodes
        .iter()
        .enumerate()
        .map(|(index, _)| index)
        .find(|id| tree.identity_text(*id) == Some(identity))
        .unwrap_or_else(|| panic!("missing {identity:?} graph node"))
}

fn review_identities(tree: &SyntaxTree) -> Vec<&str> {
    tree.review_units()
        .into_iter()
        .map(|id| {
            tree.identity_text(id).unwrap_or_else(|| {
                panic!(
                    "review unit {:?} lacks an identity",
                    tree.node(id).kind
                )
            })
        })
        .collect()
}

fn leaf_with_text(tree: &SyntaxTree, text: &str) -> NodeId {
    tree
        .nodes
        .iter()
        .enumerate()
        .map(|(index, _)| index)
        .find(|id| tree.leaf_text(*id) == Some(text))
        .unwrap_or_else(|| panic!("missing leaf {text:?}"))
}

fn assert_byte_total(tree: &SyntaxTree) {
    for (index, node) in tree.nodes.iter().enumerate() {
        if node.leaf.is_some() {
            assert!(
                node.children.is_empty(),
                "concrete leaf {:?} node {} grew projected children",
                node.kind,
                index
            );
            continue;
        }

        let mut cursor = node.bytes.start;
        for child in &node.children {
            let child = tree.node(*child);
            assert_eq!(
                child.bytes.start, cursor,
                "gap or overlap under {:?} node {}",
                node.kind, index
            );
            cursor = child.bytes.end;
        }
        assert_eq!(
            cursor, node.bytes.end,
            "uncovered suffix under {:?} node {}",
            node.kind, index
        );
    }
}

fn is_descendant(tree: &SyntaxTree, child: NodeId, ancestor: NodeId) -> bool {
    let mut parent = tree.node(child).parent;
    while let Some(candidate) = parent {
        if candidate == ancestor {
            return true;
        }
        parent = tree.node(candidate).parent;
    }
    false
}
