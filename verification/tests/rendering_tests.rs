use driver::cache::Cache;
use driver::docs::{html_end, html_start, Args, Attribute, Attributes, DocComment, FontSize, Generate};
use driver::lowering::{Ctx, DeclKind, Elem, Idx, Lvl};
use driver::render_html::{Anno, RenderHtml};
use driver::repl;
use driver::result::{Error, Span};
use driver::xfunc::{Edit, Xfunc};

#[test]
fn stale_entries_stay_available() {
    let mut cache: Cache<i32> = Cache::new();
    cache.insert("file:///a.lang".to_string(), 7);
    assert_eq!(cache.get_unless_stale(&"file:///a.lang".to_string()), Some(&7));
    cache.invalidate(&"file:///a.lang".to_string());
    assert_eq!(cache.get_unless_stale(&"file:///a.lang".to_string()), None);
    assert_eq!(cache.get_even_if_stale(&"file:///a.lang".to_string()), Some(&7));
    // insertion clears the mark again, and invalidation touches no other key
    cache.insert("file:///b.lang".to_string(), 9);
    cache.invalidate(&"file:///a.lang".to_string());
    assert_eq!(cache.get_unless_stale(&"file:///b.lang".to_string()), Some(&9));
}

#[test]
fn cache_keys_keep_insertion_order() {
    let mut cache: Cache<u8> = Cache::new();
    cache.insert("b".to_string(), 1);
    cache.insert("a".to_string(), 2);
    cache.insert("b".to_string(), 3);
    assert_eq!(cache.keys(), vec!["b".to_string(), "a".to_string()]);
    assert_eq!(cache.get_unless_stale(&"b".to_string()), Some(&3));
}

#[test]
fn html_escaping_replaces_significant_characters() {
    let renderer = RenderHtml::new(());
    assert_eq!(renderer.write_str("<&>"), Some("&lt;&amp;&gt;".to_string()));
    assert_eq!(
        renderer.write_str("a \"quoted\" 'word'"),
        Some("a &quot;quoted&quot; &#x27;word&#x27;".to_string())
    );
    assert_eq!(renderer.write_str(""), Some("".to_string()));
    assert_eq!(renderer.write_str("plain"), Some("plain".to_string()));
}

#[test]
fn render_html_escapes_and_suppresses_types() {
    let mut renderer = RenderHtml::new(Vec::<u8>::new());
    assert_eq!(renderer.write_str("x < y"), Some("x &lt; y".to_string()));
    let tag = renderer.push_annotation(Anno::Type);
    assert_eq!(tag, "<span class=\"type\">");
    assert_eq!(renderer.write_str("hidden"), None);
    assert_eq!(renderer.pop_annotation(), "");
    assert_eq!(renderer.write_str("shown"), Some("shown".to_string()));
}

#[test]
fn render_html_annotation_tags() {
    let mut renderer = RenderHtml::new(());
    assert_eq!(renderer.push_annotation(Anno::Keyword), "<span class=\"keyword\">");
    assert_eq!(renderer.pop_annotation(), "</span>");
    assert_eq!(
        renderer.push_annotation(Anno::Reference("b.html".to_string())),
        "<a href=\"b.html\">"
    );
    assert_eq!(renderer.pop_annotation(), "</a>");
    assert_eq!(renderer.push_annotation(Anno::Backslash), "");
    assert_eq!(renderer.pop_annotation(), "");
    // popping an empty stack still closes a span
    assert_eq!(renderer.pop_annotation(), "</span>");
}

#[test]
fn html_frame_is_exact() {
    let start = html_start();
    assert!(start.starts_with("<!DOCTYPE html>\n<html lang=\"en\">\n<head>\n"));
    assert!(start.ends_with("</head>\n"));
    assert!(start.contains("    <title>Code Display</title>\n"));
    assert_eq!(html_end(), "</html>\n");
}

#[test]
fn doc_comments_render_escaped_lines() {
    let comment = DocComment { docs: vec!["first <line>".to_string(), "second".to_string()] };
    assert_eq!(
        comment.generate(),
        "<span class=\"comment\"> first &lt;line&gt; </span><br><span class=\"comment\"> second </span><br>"
    );
}

#[test]
fn attributes_render_as_list() {
    let empty = Attributes { attrs: vec![] };
    assert_eq!(empty.generate(), "");
    let attrs = Attributes {
        attrs: vec![Attribute::Opaque, Attribute::Other("custom".to_string())],
    };
    assert_eq!(attrs.generate(), "#( opaque, custom )");
    assert_eq!(Attribute::OmitPrint.generate(), "omit_print");
    assert_eq!(Attribute::Transparent.generate(), "transparent");
}

#[test]
fn font_sizes_have_lowercase_names() {
    assert_eq!(FontSize::Tiny.name(), "tiny");
    assert_eq!(FontSize::Scriptsize.name(), "scriptsize");
    assert_eq!(FontSize::Footnotesize.name(), "footnotesize");
    assert_eq!(FontSize::Small.name(), "small");
    assert_eq!(FontSize::Normalsize.name(), "normalsize");
    assert_eq!(FontSize::Large.name(), "large");
}

#[test]
fn doc_args_carry_render_settings() {
    let args = Args {
        filepath: "example.lang".to_string(),
        width: 80,
        fontsize: FontSize::Scriptsize,
        omit_lambda_sugar: false,
        omit_function_sugar: true,
        indent: 4,
        output: None,
    };
    assert_eq!(args.width, 80);
    assert!(args.output.is_none());
    let repl_args = repl::Args::default();
    let repl::Args {} = repl_args;
}

#[test]
fn xfunc_collects_edits() {
    let xfunc = Xfunc {
        title: "Refunctionalize Nat".to_string(),
        edits: vec![Edit { span: Span { start: 0, end: 10 }, text: "codata Nat".to_string() }],
    };
    assert_eq!(xfunc.title, "Refunctionalize Nat");
    assert_eq!(xfunc.edits.len(), 1);
    assert_eq!(xfunc.edits[0].span, Span { start: 0, end: 10 });
}

#[test]
fn error_duplicate_preserves_structure() {
    let err = Error::ImportCycle {
        module: "file:///a.lang".to_string(),
        witness: vec!["file:///a.lang".to_string(), "file:///b.lang".to_string()],
    };
    match err.duplicate() {
        Error::ImportCycle { module, witness } => {
            assert_eq!(module, "file:///a.lang");
            assert_eq!(witness, vec!["file:///a.lang".to_string(), "file:///b.lang".to_string()]);
        }
        other => panic!("duplicate changed the variant: {other:?}"),
    }
}

#[test]
fn lowering_ctx_resolves_names() {
    let mut ctx = Ctx::empty();
    let missing = ctx.lookup(&"Nat".to_string()).unwrap_err();
    assert_eq!(missing.message, "undefined identifier Nat");
    ctx.add_name(&"Nat".to_string(), DeclKind::Data { arity: 0 }).unwrap();
    assert_eq!(ctx.lookup(&"Nat".to_string()).unwrap(), &Elem::Decl);
    ctx.add_name(&"S".to_string(), DeclKind::Ctor { in_typ: "Nat".to_string() }).unwrap();
    assert_eq!(ctx.typ_name_for_xtor(&"S".to_string()), "Nat");
    assert!(matches!(ctx.decl_kind(&"Nat".to_string()), DeclKind::Data { arity: 0 }));
    assert_eq!(ctx.typ_ctor_arity(&"Nat".to_string()), 0);
}

#[test]
fn lowering_ctx_tracks_de_bruijn_levels() {
    let mut ctx = Ctx::empty();
    ctx.level_inc_fst();
    assert_eq!(ctx.curr_lvl(), Lvl { fst: 0, snd: 0 });
    ctx.push_idx(&"x".to_string());
    ctx.push_idx(&"y".to_string());
    assert_eq!(ctx.curr_lvl(), Lvl { fst: 0, snd: 2 });
    ctx.level_inc_fst();
    ctx.push_idx(&"z".to_string());
    // the innermost binder has index (0, 0); outer ones count upward
    assert_eq!(ctx.lookup(&"z".to_string()).unwrap(), &Elem::Bound(Lvl { fst: 1, snd: 0 }));
    assert_eq!(ctx.level_to_index(Lvl { fst: 1, snd: 0 }), Idx { fst: 0, snd: 0 });
    assert_eq!(ctx.level_to_index(Lvl { fst: 0, snd: 0 }), Idx { fst: 1, snd: 1 });
    assert_eq!(ctx.lower_bound(Lvl { fst: 0, snd: 1 }), Idx { fst: 1, snd: 0 });
    // shadowing: a name bound twice resolves to the innermost binder
    ctx.push_idx(&"x".to_string());
    assert_eq!(ctx.lookup(&"x".to_string()).unwrap(), &Elem::Bound(Lvl { fst: 1, snd: 1 }));
    ctx.pop_idx(&"x".to_string());
    assert_eq!(ctx.lookup(&"x".to_string()).unwrap(), &Elem::Bound(Lvl { fst: 0, snd: 0 }));
    ctx.pop_idx(&"z".to_string());
    ctx.level_dec_fst();
    assert_eq!(ctx.curr_lvl(), Lvl { fst: 0, snd: 2 });
}
