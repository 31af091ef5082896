use stilts::escaping::encode_html;
use stilts::graph::{resolve, Config, Resolved, Sources, TemplateAttrs, TemplateSource};
use stilts::Delims;

const FUEL: usize = 64;

fn escape(escaper: &str, value: &str) -> String {
    if escaper.ends_with("::Html") {
        encode_html(value)
    } else if escaper.ends_with("CustomEscaper") {
        "CUSTOM".to_string()
    } else {
        value.to_string()
    }
}

fn value_of(code: &str, vars: &[(&str, &str)]) -> (String, bool) {
    if code.starts_with('"') && code.ends_with('"') && code.len() >= 2 {
        return (code[1..code.len() - 1].to_string(), false);
    }
    let (name, safe) = match code.strip_suffix(".safe()") {
        Some(n) => (n, true),
        None => (code, false),
    };
    let v = vars.iter().find(|(k, _)| *k == name).map(|(_, v)| v.to_string()).unwrap();
    (v, safe)
}

fn render(items: &[Resolved], vars: &[(&str, &str)]) -> String {
    let mut out = String::new();
    for it in items {
        match it {
            Resolved::Text(t) => out.push_str(t),
            Resolved::Expr { code, escaper } => {
                let (v, safe) = value_of(code, vars);
                out.push_str(&if safe { v } else { escape(escaper, &v) });
            }
            Resolved::Include { content, .. } => out.push_str(&render(content, vars)),
            other => panic!("not handled here: {other:?}"),
        }
    }
    out
}

fn attrs(source: TemplateSource) -> TemplateAttrs {
    TemplateAttrs { source, escape: None, trim: None, block: None }
}

const SAMPLE: &str = r#"<!DOCTYPE html>
<html>
{% block main %}
    {% "Hello Word" %}
    {% include "other.html" %}
    {% a.safe() %}
{% end %}
</html>"#;

const DIFFERENT_FILETYPE: &str = "function my_js_func() {\n    return \"{% my_rust_val %}\";\n}";

#[test]
fn ensure_child() {
    const EXPECTED: &str = r#"Hello Word<a href="/">MY MAN</a>my code content <a></a>"#;
    let mut sources = Sources::new();
    sources.add("sample.html", SAMPLE);
    sources.add("other.html", "<a href=\"/\">MY MAN</a>");
    let cfg = Config::new(true, Delims::default());
    let mut a = attrs(TemplateSource::new_file("sample.html"));
    a.block = Some("main".to_string());
    let plan = resolve(&cfg, &sources, &a, FUEL).unwrap();
    let val = render(&plan, &[("a", "my code content <a></a>")]);
    assert_eq!(val, EXPECTED);
}

#[test]
fn ensure_solo() {
    const EXPECTED: &str = r#"<strong>Hey</strong>"#;
    let cfg = Config::new(true, Delims::default());
    let mut a = attrs(TemplateSource::Literal(
        "<em> {% block main %} <strong> {% a %} </strong> {% end %} </em>".to_string(),
    ));
    a.block = Some("main".to_string());
    let plan = resolve(&cfg, &Sources::new(), &a, FUEL).unwrap();
    let val = render(&plan, &[("a", "Hey")]);
    assert_eq!(val, EXPECTED);
}

#[test]
fn ensure_lit_matches() {
    const EXPECTED: &str = "Literal cool Template";
    let cfg = Config::new(true, Delims::default());
    let mut a = attrs(TemplateSource::Literal("Literal {% a %} Template".to_string()));
    a.trim = Some(false);
    let plan = resolve(&cfg, &Sources::new(), &a, FUEL).unwrap();
    let val = render(&plan, &[("a", "cool")]);
    assert_eq!(val, EXPECTED);
}

#[test]
fn ensure_escapes() {
    const EXPECTED: &str = r#"function my_js_func() {
    return "CUSTOM";
}"#;
    let mut sources = Sources::new();
    sources.add("different_filetype.js", DIFFERENT_FILETYPE);
    let mut cfg = Config::new(true, Delims::default());
    cfg.set_escaper("js", "CustomEscaper");
    let a = attrs(TemplateSource::new_file("different_filetype.js"));
    let plan = resolve(&cfg, &sources, &a, FUEL).unwrap();
    let val = render(&plan, &[("my_rust_val", "Hello, World!")]);
    assert_eq!(val, EXPECTED);
}

#[test]
fn ensure_override() {
    const EXPECTED: &str = r#"function my_js_func() {
    return "Hello, World!";
}"#;
    let mut sources = Sources::new();
    sources.add("different_filetype.js", DIFFERENT_FILETYPE);
    let mut cfg = Config::new(true, Delims::default());
    cfg.set_escaper("js", "CustomEscaper");
    let mut a = attrs(TemplateSource::new_file("different_filetype.js"));
    a.escape = Some("stilts::escaping::Empty".to_string());
    let plan = resolve(&cfg, &sources, &a, FUEL).unwrap();
    let val = render(&plan, &[("my_rust_val", "Hello, World!")]);
    assert_eq!(val, EXPECTED);
}

#[test]
fn block_override_with_super() {
    let mut sources = Sources::new();
    sources.add("base", "{% block x %}base{% end %}");
    sources.add("child", "{% extends \"base\" %}{% block x %}child-before{% super() %}child-after{% end %}");
    let cfg = Config::new(false, Delims::default());
    let plan = resolve(&cfg, &sources, &attrs(TemplateSource::new_file("child")), FUEL).unwrap();
    assert_eq!(
        plan,
        vec![
            Resolved::Text("child-before".to_string()),
            Resolved::Text("base".to_string()),
            Resolved::Text("child-after".to_string()),
        ]
    );
}

#[test]
fn middle_block_reached_only_through_super() {
    let mut sources = Sources::new();
    sources.add("a", "[{% block x %}A{% end %}]");
    sources.add("b", "{% extends \"a\" %}{% block x %}B{% super() %}{% end %}");
    sources.add("c", "{% extends \"b\" %}{% block x %}C{% super() %}{% end %}");
    sources.add("d", "{% extends \"b\" %}{% block x %}D{% end %}");
    let cfg = Config::new(false, Delims::default());
    let c = resolve(&cfg, &sources, &attrs(TemplateSource::new_file("c")), FUEL).unwrap();
    assert_eq!(render(&c, &[]), "[CBA]");
    let d = resolve(&cfg, &sources, &attrs(TemplateSource::new_file("d")), FUEL).unwrap();
    assert_eq!(render(&d, &[]), "[D]");
}

#[test]
fn super_in_a_root_block_is_nothing() {
    let cfg = Config::new(false, Delims::default());
    let a = attrs(TemplateSource::Literal("{% block x %}a{% super() %}b{% end %}".to_string()));
    let plan = resolve(&cfg, &Sources::new(), &a, FUEL).unwrap();
    assert_eq!(render(&plan, &[]), "ab");
}

#[test]
fn extends_cycle_is_reported_with_its_chain() {
    let mut sources = Sources::new();
    sources.add("A", "{% extends \"B\" %}");
    sources.add("B", "{% extends \"A\" %}");
    let cfg = Config::new(false, Delims::default());
    let err = resolve(&cfg, &sources, &attrs(TemplateSource::new_file("A")), FUEL).err().unwrap();
    assert!(err.message.contains("A -> B -> A"));
    assert_eq!(err.message, "dependency cycle detected: A -> B -> A");
}

#[test]
fn missing_template_is_reported() {
    let cfg = Config::new(false, Delims::default());
    let err = resolve(&cfg, &Sources::new(), &attrs(TemplateSource::new_file("nope.html")), FUEL).err().unwrap();
    assert_eq!(err.message, "unable to read template nope.html");
}

#[test]
fn include_is_resolved_in_place() {
    let mut sources = Sources::new();
    sources.add("row.html", "<td>{% x %}</td>");
    let cfg = Config::new(false, Delims::default());
    let a = attrs(TemplateSource::Literal("<tr>{% include \"row.html\" x: 1 %}</tr>".to_string()));
    let plan = resolve(&cfg, &sources, &a, FUEL).unwrap();
    assert_eq!(plan.len(), 3);
    match &plan[1] {
        Resolved::Include { args, content } => {
            assert_eq!(args, "x: 1");
            assert_eq!(render(content, &[("x", "1")]), "<td>1</td>");
        }
        other => panic!("expected an include, got {other:?}"),
    }
}

#[test]
fn self_include_runs_out_of_fuel() {
    let mut sources = Sources::new();
    sources.add("loop.html", "x{% include \"loop.html\" %}");
    let cfg = Config::new(false, Delims::default());
    let err = resolve(&cfg, &sources, &attrs(TemplateSource::new_file("loop.html")), 8).err().unwrap();
    assert_eq!(err.message, "template nesting is too deep");
}

#[test]
fn long_chain_is_refused() {
    let mut sources = Sources::new();
    sources.add("t0", "base");
    sources.add("t1", "{% extends \"t0\" %}");
    sources.add("t2", "{% extends \"t1\" %}");
    sources.add("t3", "{% extends \"t2\" %}");
    let cfg = Config::new(false, Delims::default());
    let err = resolve(&cfg, &sources, &attrs(TemplateSource::new_file("t3")), 2).err().unwrap();
    assert_eq!(err.message, "template inheritance chain is too long");
    let ok = resolve(&cfg, &sources, &attrs(TemplateSource::new_file("t3")), 3).unwrap();
    assert_eq!(ok, vec![Resolved::Text("base".to_string())]);
}

#[test]
fn unknown_block_is_reported() {
    let cfg = Config::new(false, Delims::default());
    let mut a = attrs(TemplateSource::Literal("no blocks".to_string()));
    a.block = Some("main".to_string());
    let err = resolve(&cfg, &Sources::new(), &a, FUEL).err().unwrap();
    assert_eq!(err.message, "no block named main");
}

#[test]
fn html_escaper_for_html_files() {
    let mut sources = Sources::new();
    sources.add("page.html", "{% v %}");
    let cfg = Config::new(false, Delims::default());
    let plan = resolve(&cfg, &sources, &attrs(TemplateSource::new_file("page.html")), FUEL).unwrap();
    assert_eq!(
        plan,
        vec![Resolved::Expr { code: "v".to_string(), escaper: "::stilts::escaping::Html".to_string() }]
    );
    assert_eq!(render(&plan, &[("v", "<a href='/'>&</a>")]), "&lt;a href=&#x27;&#x2F;&#x27;&gt;&amp;&lt;&#x2F;a&gt;");
}

fn eval_in(code: &str, env: &[(String, String)]) -> String {
    if code.len() >= 2 && code.starts_with('"') && code.ends_with('"') {
        return code[1..code.len() - 1].to_string();
    }
    env.iter().rev().find(|(k, _)| k == code).map(|(_, v)| v.clone()).unwrap_or_else(|| code.to_string())
}

fn render_env(items: &[Resolved], env: &mut Vec<(String, String)>) -> String {
    let mut out = String::new();
    for it in items {
        match it {
            Resolved::Text(t) => out.push_str(t),
            Resolved::Expr { code, .. } => out.push_str(&eval_in(code, env)),
            Resolved::For { pat, expr, content } => {
                let (a, b) = expr.split_once("..=").unwrap();
                for n in a.trim().parse::<i64>().unwrap()..=b.trim().parse::<i64>().unwrap() {
                    env.push((pat.clone(), n.to_string()));
                    out.push_str(&render_env(content, env));
                    env.pop();
                }
            }
            Resolved::Include { args, content } => {
                let depth = env.len();
                let bound: Vec<(String, String)> = args
                    .split(',')
                    .filter(|f| !f.trim().is_empty())
                    .map(|f| {
                        let (k, v) = f.split_once(':').unwrap();
                        (k.trim().to_string(), eval_in(v.trim(), env))
                    })
                    .collect();
                env.extend(bound);
                out.push_str(&render_env(content, env));
                env.truncate(depth);
            }
            other => panic!("not handled here: {other:?}"),
        }
    }
    out
}

#[test]
fn ensure_args_passthrough() {
    const EXPECTED: &str = r"<table><tr><td>1, 1</td><td>1, 2</td><td>1, 3</td></tr><tr><td>2, 1</td><td>2, 2</td><td>2, 3</td></tr><tr><td>3, 1</td><td>3, 2</td><td>3, 3</td></tr></table>";
    let mut sources = Sources::new();
    sources.add(
        "custom_table.html",
        "<table>{% for i in 1..=3 %}<tr>{% for j in 1..=3 %}{% include \"cell.html\" i: i, j: j %}{% end %}</tr>{% end %}</table>",
    );
    sources.add("cell.html", "<td>{% i %}{% \", \" %}{% j %}</td>");
    let cfg = Config::new(true, Delims::default());
    let plan = resolve(&cfg, &sources, &attrs(TemplateSource::new_file("custom_table.html")), FUEL).unwrap();
    assert_eq!(render_env(&plan, &mut Vec::new()), EXPECTED);
}
