//! Inheritance resolution: follow `extends` from a template to its root
//! ancestor, then emit the chain's items with each block replaced by its
//! deepest override, `super()` climbing one template at a time.

use vstd::prelude::*;
use crate::error::Diagnostic;
use crate::located::chars_of;
use crate::parse::{parse_template, parsed_as, template_parent, well_formed};
use crate::types::{owned_items, Root};
use crate::state::Delims;
use crate::error::{trim, trimmed};
use crate::types::{OwnedArm, OwnedBlock, OwnedBranch, OwnedExpr, OwnedItem, OwnedRoot};

verus! {

broadcast use {
    vstd::seq::axiom_seq_subrange_decreases,
    vstd::seq::axiom_seq_index_decreases,
    vstd::std_specs::vec::axiom_vec_index_decreases,
    vstd::std_specs::vec::axiom_vec_decreases_to_view,
};

/// The texts of the templates that `extends` and `include` may name, each
/// under its reference. A later text under the same reference replaces an
/// earlier one.
pub struct Sources {
    entries: Vec<(String, String)>,
}

/// The text filed last under `name` in `entries`.
pub open spec fn lookup(entries: Seq<(String, String)>, name: Seq<char>) -> Option<Seq<char>>
    decreases entries.len(),
{
    if entries.len() == 0 {
        None
    } else if entries.last().0@ == name {
        Some(entries.last().1@)
    } else {
        lookup(entries.drop_last(), name)
    }
}

impl Sources {
    /// The texts, in the order they were added.
    pub closed spec fn entries(&self) -> Seq<(String, String)> {
        self.entries@
    }

    /// No texts.
    pub fn new() -> (r: Self)
        ensures
            r.entries().len() == 0,
    {
        Sources { entries: Vec::new() }
    }

    /// File `text` under the reference `name`.
    pub fn add(&mut self, name: &str, text: &str)
        ensures
            final(self).entries().len() == old(self).entries().len() + 1,
            final(self).entries().drop_last() == old(self).entries(),
            final(self).entries().last().0@ == name@,
            final(self).entries().last().1@ == text@,
    {
        self.entries.push((String::from_str(name), String::from_str(text)));
        proof { assert(self.entries@.drop_last() =~= old(self).entries@); }
    }

    /// The text filed last under `name`.
    pub fn read(&self, name: &str) -> (r: Option<String>)
        ensures
            match r {
                Some(t) => lookup(self.entries(), name@) == Some(t@),
                None => lookup(self.entries(), name@) is None,
            },
    {
        let mut i: usize = self.entries.len();
        let key = String::from_str(name);
        proof { assert(self.entries@.subrange(0, i as int) =~= self.entries@); }
        while i > 0
            invariant
                i <= self.entries@.len(),
                key@ == name@,
                lookup(self.entries@, name@) == lookup(self.entries@.subrange(0, i as int), name@),
            decreases i,
        {
            proof {
                assert(self.entries@.subrange(0, i as int).drop_last() =~= self.entries@.subrange(0, i - 1));
            }
            if self.entries[i - 1].0 == key {
                return Some(self.entries[i - 1].1.clone());
            }
            i = i - 1;
        }
        None
    }
}

/// Where a template's text comes from: given in place, or a reference that
/// the sources resolve.
pub enum TemplateSource {
    Literal(String),
    File(String),
}

impl TemplateSource {
    /// The template referenced by `path`.
    pub fn new_file(path: &str) -> (r: Self)
        ensures
            r matches TemplateSource::File(p) && p@ == path@,
    {
        TemplateSource::File(String::from_str(path))
    }

    /// The reference, for a template that has one.
    pub fn as_path(&self) -> (r: Option<String>)
        ensures
            match self {
                TemplateSource::File(p) => r matches Some(q) && q@ == p@,
                TemplateSource::Literal(_) => r is None,
            },
    {
        match self {
            TemplateSource::File(p) => Some(p.clone()),
            TemplateSource::Literal(_) => None,
        }
    }
}

/// Names the media type that `mime_guess` gives a path, by its extension.
pub uninterp spec fn guessed_mime(path: Seq<char>) -> Option<Seq<char>>;

/// Relies on `mime_guess::from_path(..).first()`: the first media type of the
/// static table for the path's extension; it depends on the path alone.
#[verifier::external_body]
fn guess_mime(path: &str) -> (r: Option<String>)
    ensures
        match r {
            Some(m) => guessed_mime(path@) == Some(m@),
            None => guessed_mime(path@) is None,
        },
{
    mime_guess::from_path(path).first().map(|m| m.to_string())
}

impl TemplateSource {
    /// The media type guessed from the reference's extension; none for a
    /// template given in place.
    pub fn mime_type(&self) -> (r: Option<String>)
        ensures
            match self {
                TemplateSource::File(p) => match r {
                    Some(m) => guessed_mime(p@) == Some(m@),
                    None => guessed_mime(p@) is None,
                },
                TemplateSource::Literal(_) => r is None,
            },
    {
        match self {
            TemplateSource::File(p) => guess_mime(p.as_str()),
            TemplateSource::Literal(_) => None,
        }
    }
}

/// The identity of a template's source: its reference, or none.
pub open spec fn source_path(s: TemplateSource) -> Option<Seq<char>> {
    match s {
        TemplateSource::File(p) => Some(p@),
        TemplateSource::Literal(_) => None,
    }
}

/// What a template asks of its rendering: where it comes from, the escaper
/// that replaces the one its extension selects, the trim policy that
/// replaces the configured one, and the one block to render alone.
pub struct TemplateAttrs {
    pub source: TemplateSource,
    pub escape: Option<String>,
    pub trim: Option<bool>,
    pub block: Option<String>,
}

/// The settings the resolution reads: delimiters, trim policy, and the table
/// from file extension to escaper.
pub struct Config {
    pub trim: bool,
    pub delimiters: Delims,
    pub escape_table: Vec<(String, String)>,
}

/// The escaper that files with extension `ext` get from `table`.
pub open spec fn escaper_in(table: Seq<(String, String)>, ext: Seq<char>) -> Seq<char> {
    match lookup(table, ext) {
        Some(p) => p,
        None => "::stilts::escaping::Empty"@,
    }
}

impl Config {
    /// The table from extension to escaper, in the order entries were added.
    pub open spec fn table(&self) -> Seq<(String, String)> {
        self.escape_table@
    }

    /// A configuration with trim policy `trim`, delimiters `delimiters`, and
    /// the HTML escaper for `html` and `htm` files.
    pub fn new(trim: bool, delimiters: Delims) -> (r: Self)
        ensures
            r.trim == trim,
            r.delimiters == delimiters,
            r.table().len() == 2,
            r.table()[0].0@ == "html"@ && r.table()[0].1@ == "::stilts::escaping::Html"@,
            r.table()[1].0@ == "htm"@ && r.table()[1].1@ == "::stilts::escaping::Html"@,
    {
        let mut escape_table: Vec<(String, String)> = Vec::new();
        escape_table.push((String::from_str("html"), String::from_str("::stilts::escaping::Html")));
        escape_table.push((String::from_str("htm"), String::from_str("::stilts::escaping::Html")));
        Config { trim, delimiters, escape_table }
    }

    /// Give files with extension `ext` the escaper `path`, over what the
    /// table held for them.
    pub fn set_escaper(&mut self, ext: &str, path: &str)
        ensures
            final(self).table().len() == old(self).table().len() + 1,
            final(self).table().drop_last() == old(self).table(),
            final(self).table().last().0@ == ext@,
            final(self).table().last().1@ == path@,
            final(self).trim == old(self).trim,
            final(self).delimiters == old(self).delimiters,
    {
        self.escape_table.push((String::from_str(ext), String::from_str(path)));
        proof { assert(self.escape_table@.drop_last() =~= old(self).escape_table@); }
    }

    /// The escaper for files with extension `ext`: the table's, else the
    /// one that escapes nothing.
    pub fn escaper(&self, ext: &str) -> (r: String)
        ensures
            r@ == escaper_in(self.table(), ext@),
    {
        let mut i: usize = self.escape_table.len();
        let key = String::from_str(ext);
        proof { assert(self.escape_table@.subrange(0, i as int) =~= self.escape_table@); }
        while i > 0
            invariant
                i <= self.escape_table@.len(),
                key@ == ext@,
                lookup(self.escape_table@, ext@) == lookup(self.escape_table@.subrange(0, i as int), ext@),
            decreases i,
        {
            proof {
                assert(self.escape_table@.subrange(0, i as int).drop_last() =~= self.escape_table@.subrange(0, i - 1));
            }
            if self.escape_table[i - 1].0 == key {
                return self.escape_table[i - 1].1.clone();
            }
            i = i - 1;
        }
        String::from_str("::stilts::escaping::Empty")
    }
}

/// A template's text and, where it has one, its reference.
pub struct TemplateData {
    pub path: Option<String>,
    pub content: String,
}

/// The text of the template `source` names.
pub fn read_template(sources: &Sources, source: &TemplateSource) -> (r: Result<TemplateData, Diagnostic>)
    ensures
        match source {
            TemplateSource::Literal(c) => r matches Ok(d) && d.path is None && d.content@ == c@,
            TemplateSource::File(p) => match lookup(sources.entries(), p@) {
                Some(t) => r matches Ok(d) && (d.path matches Some(q) && q@ == p@) && d.content@ == t,
                None => r matches Err(e) && e.message@ == "unable to read template "@ + p@,
            },
        },
{
    match source {
        TemplateSource::Literal(c) => Ok(TemplateData { path: None, content: c.clone() }),
        TemplateSource::File(p) => match sources.read(p.as_str()) {
            Some(t) => Ok(TemplateData { path: Some(p.clone()), content: t }),
            None => {
                let mut msg = String::from_str("unable to read template ");
                msg.append(p.as_str());
                Err(Diagnostic::new(msg.as_str()))
            },
        },
    }
}

/// Parse `text` and keep an owned copy of the tree.
fn parse_owned(text: &str, delims: &Delims) -> (r: Result<OwnedRoot, Diagnostic>)
    requires
        delims.usable(),
    ensures
        r is Ok <==> well_formed(text@, *delims),
        r matches Ok(root) ==> parent_of(root) == template_parent(text@, *delims),
        r matches Ok(root) ==> parsed_owned(root.content@, text@, *delims),
{
    let chars = chars_of(text);
    match parse_template(chars.as_slice(), delims) {
        Ok(root) => {
            let owned = root.into_owned();
            proof {
                if root.content@.len() > 0 {
                    assert(crate::types::owned_item(owned.content@[0], root.content@[0]));
                }
                assert(parsed_as(root, text@, *delims) && owned_items(owned.content@, root.content@));
            }
            Ok(owned)
        },
        Err(e) => Err(e),
    }
}

/// The reference a template extends: that of its first item, where that
/// item is `extends`.
pub open spec fn parent_of(root: OwnedRoot) -> Option<Seq<char>> {
    if root.content@.len() > 0 {
        match root.content@[0] {
            OwnedItem::Expr(OwnedExpr::Extends(p)) => Some(p@),
            _ => None,
        }
    } else {
        None
    }
}

/// The reference the template `root` extends, if any.
pub fn get_parent(root: &OwnedRoot) -> (r: Option<String>)
    ensures
        match r {
            Some(p) => parent_of(*root) == Some(p@),
            None => parent_of(*root) is None,
        },
{
    if root.content.len() > 0 {
        match &root.content[0] {
            OwnedItem::Expr(OwnedExpr::Extends(p)) => Some(p.clone()),
            _ => None,
        }
    } else {
        None
    }
}

/// One template of an inheritance chain.
pub struct TemplateNode {
    pub path: Option<String>,
    /// The template's text, as the sources hold it.
    pub text: String,
    pub root: OwnedRoot,
    pub escape_override: Option<String>,
    pub trim_override: Option<bool>,
}

/// The identity of a node: its reference, where it has one.
pub open spec fn node_path(n: TemplateNode) -> Option<Seq<char>> {
    match n.path {
        Some(p) => Some(p@),
        None => None,
    }
}

/// `o` is the owned copy of a parse of the template `s`.
pub open spec fn parsed_owned(o: Seq<OwnedItem>, s: Seq<char>, d: Delims) -> bool {
    exists|b: Root| parsed_as(b, s, d) && #[trigger] owned_items(o, b.content@)
}

/// The node `n` holds the text the sources file under its reference, which
/// parses, and its tree extends what that text's `extends` names.
pub open spec fn node_sourced(n: TemplateNode, sources: Seq<(String, String)>, d: Delims) -> bool {
    &&& (n.path matches Some(p) ==> lookup(sources, p@) == Some(n.text@))
    &&& well_formed(n.text@, d)
    &&& parent_of(n.root) == template_parent(n.text@, d)
    &&& parsed_owned(n.root.content@, n.text@, d)
}

/// An inheritance chain, the root ancestor first and the requested template
/// last.
pub struct Graph {
    pub nodes: Vec<TemplateNode>,
}

/// `nodes` form a chain: each but the first extends the one before it, the
/// first extends nothing, and no reference occurs twice.
pub open spec fn chain_wf(nodes: Seq<TemplateNode>) -> bool {
    &&& nodes.len() >= 1
    &&& parent_of(nodes[0].root) is None
    &&& forall|i: int| 0 <= i < nodes.len() - 1 ==> #[trigger] parent_of(nodes[i + 1].root) == node_path(nodes[i])
        && node_path(nodes[i]) is Some
    &&& forall|i: int, j: int| 0 <= i < nodes.len() && 0 <= j < nodes.len() && i != j
        && #[trigger] node_path(nodes[i]) is Some ==> node_path(nodes[i]) != #[trigger] node_path(nodes[j])
}

/// The references of `nodes`, last node first, each followed by ` -> `.
pub open spec fn chain_text(nodes: Seq<TemplateNode>) -> Seq<char>
    decreases nodes.len(),
{
    if nodes.len() == 0 {
        Seq::empty()
    } else {
        let seg = match node_path(nodes.last()) {
            Some(p) => p + " -> "@,
            None => Seq::empty(),
        };
        seg + chain_text(nodes.drop_last())
    }
}

/// The references `seen`, in order, each followed by ` -> `.
pub open spec fn arrows(seen: Seq<Seq<char>>) -> Seq<char>
    decreases seen.len(),
{
    if seen.len() == 0 {
        Seq::empty()
    } else {
        arrows(seen.drop_last()) + (seen.last() + " -> "@)
    }
}

/// How following `extends` from a template that extends `parent` ends.
pub enum ChainEnd {
    /// Every ancestor is read and parsed.
    Loaded,
    /// A reference comes back; the chain of references, as the cycle
    /// message shows it.
    Cycle(Seq<char>),
    /// The sources hold no text under the reference.
    Missing(Seq<char>),
    /// The chain holds more ancestors than allowed.
    TooLong,
    /// A template of the chain does not parse.
    Unparsed,
}

/// How loading the ancestors ends, from a template that extends `parent`,
/// the references `seen` met so far, with room for `budget` more.
pub open spec fn chain_end(sources: Seq<(String, String)>, d: Delims, parent: Option<Seq<char>>, seen: Seq<Seq<char>>, budget: nat) -> ChainEnd
    decreases budget,
{
    match parent {
        None => ChainEnd::Loaded,
        Some(p) => if budget == 0 {
            ChainEnd::TooLong
        } else {
            match lookup(sources, p) {
                None => ChainEnd::Missing(p),
                Some(t) => if seen.contains(p) {
                    ChainEnd::Cycle(arrows(seen) + p)
                } else if !well_formed(t, d) {
                    ChainEnd::Unparsed
                } else {
                    chain_end(sources, d, template_parent(t, d), seen.push(p), (budget - 1) as nat)
                },
            }
        },
    }
}

/// The text of the template `s` names.
pub open spec fn source_text(sources: Seq<(String, String)>, s: TemplateSource) -> Option<Seq<char>> {
    match s {
        TemplateSource::Literal(c) => Some(c@),
        TemplateSource::File(p) => lookup(sources, p@),
    }
}

/// The references met before any ancestor: that of the requested template.
pub open spec fn first_seen(s: TemplateSource) -> Seq<Seq<char>> {
    match s {
        TemplateSource::File(p) => seq![p@],
        TemplateSource::Literal(_) => Seq::empty(),
    }
}

/// How loading `attrs.source` with its ancestors ends.
pub open spec fn load_end(sources: Seq<(String, String)>, d: Delims, s: TemplateSource, limit: nat) -> ChainEnd {
    match source_text(sources, s) {
        Some(t) => if well_formed(t, d) {
            chain_end(sources, d, template_parent(t, d), first_seen(s), limit)
        } else {
            ChainEnd::Unparsed
        },
        None => ChainEnd::Missing(source_path(s)->0),
    }
}

proof fn lemma_chain_text_insert(nodes: Seq<TemplateNode>, n: TemplateNode)
    ensures
        chain_text(nodes.insert(0, n)) == chain_text(nodes) + match node_path(n) {
            Some(p) => p + " -> "@,
            None => Seq::empty(),
        },
    decreases nodes.len(),
{
    let seg = match node_path(n) {
        Some(p) => p + " -> "@,
        None => Seq::<char>::empty(),
    };
    let ins = nodes.insert(0, n);
    if nodes.len() == 0 {
        assert(ins =~= seq![n]);
        assert(ins.drop_last() =~= Seq::<TemplateNode>::empty());
        assert(ins.last() == n);
        assert(chain_text(ins) == seg + chain_text(ins.drop_last()));
        assert(chain_text(Seq::<TemplateNode>::empty()) =~= Seq::<char>::empty());
        assert(seg + Seq::<char>::empty() =~= seg);
        assert(Seq::<char>::empty() + seg =~= seg);
    } else {
        assert(ins.last() == nodes.last());
        assert(ins.drop_last() =~= nodes.drop_last().insert(0, n));
        lemma_chain_text_insert(nodes.drop_last(), n);
        let s0 = match node_path(nodes.last()) {
            Some(p) => p + " -> "@,
            None => Seq::<char>::empty(),
        };
        assert(chain_text(ins) == s0 + chain_text(ins.drop_last()));
        assert(chain_text(nodes) == s0 + chain_text(nodes.drop_last()));
        assert(s0 + (chain_text(nodes.drop_last()) + seg) =~= (s0 + chain_text(nodes.drop_last())) + seg);
    }
}

/// Fail where `path` is already the reference of one of `nodes`, with the
/// chain of references in the order they were loaded, then `path`.
fn check_cycle(nodes: &Vec<TemplateNode>, path: &String) -> (r: Result<(), Diagnostic>)
    ensures
        r is Err <==> exists|k: int| 0 <= k < nodes@.len() && #[trigger] node_path(nodes@[k]) == Some(path@),
        r matches Err(e) ==> e.message@ == "dependency cycle detected: "@ + chain_text(nodes@) + path@,
{
    let mut found = false;
    let mut i: usize = 0;
    while i < nodes.len()
        invariant
            i <= nodes@.len(),
            found <==> exists|k: int| 0 <= k < i && #[trigger] node_path(nodes@[k]) == Some(path@),
        decreases nodes@.len() - i,
    {
        let hit = match &nodes[i].path {
            Some(p) => *p == *path,
            None => false,
        };
        proof {
            if hit {
                assert(node_path(nodes@[i as int]) == Some(path@));
            } else {
                assert(node_path(nodes@[i as int]) != Some(path@));
            }
        }
        found = found || hit;
        i = i + 1;
    }
    if !found {
        return Ok(());
    }
    let mut msg = String::from_str("dependency cycle detected: ");
    let ghost head = msg@;
    let mut j: usize = nodes.len();
    proof { assert(nodes@.subrange(0, j as int) =~= nodes@); }
    while j > 0
        invariant
            j <= nodes@.len(),
            head == "dependency cycle detected: "@,
            msg@ + chain_text(nodes@.subrange(0, j as int)) == head + chain_text(nodes@),
        decreases j,
    {
        let ghost before = msg@;
        let ghost pre = nodes@.subrange(0, j as int);
        proof { assert(pre.drop_last() =~= nodes@.subrange(0, j - 1)); }
        match &nodes[j - 1].path {
            Some(p) => {
                msg.append(p.as_str());
                msg.append(" -> ");
                proof {
                    assert(msg@ =~= before + (p@ + " -> "@));
                    assert(before + ((p@ + " -> "@) + chain_text(nodes@.subrange(0, j - 1)))
                        =~= msg@ + chain_text(nodes@.subrange(0, j - 1)));
                }
            },
            None => {
                proof { assert(Seq::<char>::empty() + chain_text(nodes@.subrange(0, j - 1)) =~= chain_text(nodes@.subrange(0, j - 1))); }
            },
        }
        j = j - 1;
    }
    proof { assert(nodes@.subrange(0, 0) =~= Seq::<TemplateNode>::empty()); }
    msg.append(path.as_str());
    Err(Diagnostic::new(msg.as_str()))
}

fn clone_opt(o: &Option<String>) -> (r: Option<String>)
    ensures
        match o {
            Some(s) => r matches Some(t) && t@ == s@,
            None => r is None,
        },
{
    match o {
        Some(s) => Some(s.clone()),
        None => None,
    }
}

impl Graph {
    /// Load the template `attrs.source` and, following `extends`, each of
    /// its ancestors, at most `limit` of them. The chain ends at the
    /// requested template, starts at one that extends nothing, and never
    /// holds a reference twice: a reference met again is a cycle.
    #[verifier::rlimit(80)]
    pub fn load(cfg: &Config, sources: &Sources, attrs: &TemplateAttrs, limit: usize) -> (r: Result<Graph, Diagnostic>)
        requires
            cfg.delimiters.usable(),
        ensures
            r matches Ok(g) ==> chain_wf(g.nodes@) && node_path(g.nodes@.last()) == source_path(attrs.source),
            r matches Ok(g) ==> forall|i: int| 0 <= i < g.nodes@.len() ==> node_sourced(#[trigger] g.nodes@[i], sources.entries(), cfg.delimiters),
            r matches Ok(g) ==> g.nodes@.last().text@ == source_text(sources.entries(), attrs.source)->0,
            r matches Ok(g) ==> overridden(g.nodes@, opt_view(attrs.escape), attrs.trim),
            (attrs.source matches TemplateSource::File(p) && lookup(sources.entries(), p@) is None)
                ==> (r matches Err(e) && e.message@ == "unable to read template "@ + source_path(attrs.source)->0),
            match load_end(sources.entries(), cfg.delimiters, attrs.source, limit as nat) {
                ChainEnd::Loaded => r is Ok,
                ChainEnd::Cycle(m) => r matches Err(e) && e.message@ == "dependency cycle detected: "@ + m,
                ChainEnd::Missing(p) => r matches Err(e) && e.message@ == "unable to read template "@ + p,
                ChainEnd::TooLong => r matches Err(e) && e.message@ == "template inheritance chain is too long"@,
                ChainEnd::Unparsed => r is Err,
            },
    {
        let data = match read_template(sources, &attrs.source) {
            Ok(d) => d,
            Err(e) => return Err(e),
        };
        let root = match parse_owned(data.content.as_str(), &cfg.delimiters) {
            Ok(t) => t,
            Err(e) => return Err(e),
        };
        let mut parent = get_parent(&root);
        let mut nodes: Vec<TemplateNode> = Vec::new();
        nodes.push(TemplateNode {
            path: data.path,
            text: data.content,
            root,
            escape_override: clone_opt(&attrs.escape),
            trim_override: attrs.trim,
        });
        let ghost t0 = source_text(sources.entries(), attrs.source)->0;
        let ghost seen: Seq<Seq<char>> = first_seen(attrs.source);
        proof {
            assert(nodes@.drop_last() =~= Seq::<TemplateNode>::empty());
            assert(chain_text(nodes@.drop_last()) =~= Seq::<char>::empty());
            if attrs.source is File {
                let p = attrs.source->File_0;
                assert(seen.drop_last() =~= Seq::<Seq<char>>::empty());
                assert(arrows(seen.drop_last()) =~= Seq::<char>::empty());
                assert(chain_text(nodes@) =~= (p@ + " -> "@) + Seq::<char>::empty());
                assert(arrows(seen) =~= Seq::<char>::empty() + (p@ + " -> "@));
            } else {
                assert(chain_text(nodes@) =~= Seq::<char>::empty() + Seq::<char>::empty());
                assert(arrows(seen) =~= Seq::<char>::empty());
            }
            assert forall|q: Seq<char>| seen.contains(q) <==> exists|k: int| 0 <= k < nodes@.len() && #[trigger] node_path(nodes@[k]) == Some(q) by {
                if seen.contains(q) {
                    assert(node_path(nodes@[0]) == Some(q));
                }
                if exists|k: int| 0 <= k < nodes@.len() && #[trigger] node_path(nodes@[k]) == Some(q) {
                    assert(seen[0] == q);
                }
            }
        }
        let mut budget = limit;
        while parent.is_some()
            invariant
                cfg.delimiters.usable(),
                !(attrs.source matches TemplateSource::File(p) && lookup(sources.entries(), p@) is None),
                nodes@.len() >= 1,
                node_path(nodes@.last()) == source_path(attrs.source),
                nodes@.last().text@ == t0,
                match parent {
                    Some(p) => parent_of(nodes@[0].root) == Some(p@),
                    None => parent_of(nodes@[0].root) is None,
                },
                forall|i: int| 0 <= i < nodes@.len() - 1 ==> #[trigger] parent_of(nodes@[i + 1].root) == node_path(nodes@[i])
                    && node_path(nodes@[i]) is Some,
                forall|i: int, j: int| 0 <= i < nodes@.len() && 0 <= j < nodes@.len() && i != j
                    && #[trigger] node_path(nodes@[i]) is Some ==> node_path(nodes@[i]) != #[trigger] node_path(nodes@[j]),
                forall|i: int| 0 <= i < nodes@.len() ==> node_sourced(#[trigger] nodes@[i], sources.entries(), cfg.delimiters),
                chain_text(nodes@) == arrows(seen),
                overridden(nodes@, opt_view(attrs.escape), attrs.trim),
                forall|q: Seq<char>| seen.contains(q) <==> exists|k: int| 0 <= k < nodes@.len() && #[trigger] node_path(nodes@[k]) == Some(q),
                load_end(sources.entries(), cfg.delimiters, attrs.source, limit as nat)
                    == chain_end(sources.entries(), cfg.delimiters, opt_view(parent), seen, budget as nat),
            decreases budget,
        {
            if budget == 0 {
                return Err(Diagnostic::new("template inheritance chain is too long"));
            }
            budget = budget - 1;
            let p = match &parent {
                Some(p) => p.clone(),
                None => String::new(),
            };
            let src = TemplateSource::File(p.clone());
            let data = match read_template(sources, &src) {
                Ok(d) => d,
                Err(e) => return Err(e),
            };
            if let Err(e) = check_cycle(&nodes, &p) {
                proof {
                    let k = choose|k: int| 0 <= k < nodes@.len() && #[trigger] node_path(nodes@[k]) == Some(p@);
                    assert(seen.contains(p@));
                }
                return Err(e);
            }
            proof {
                if seen.contains(p@) {
                    let k = choose|k: int| 0 <= k < nodes@.len() && #[trigger] node_path(nodes@[k]) == Some(p@);
                    assert(false);
                }
            }
            let root = match parse_owned(data.content.as_str(), &cfg.delimiters) {
                Ok(t) => t,
                Err(e) => return Err(e),
            };
            let next = get_parent(&root);
            let node = TemplateNode {
                path: data.path,
                text: data.content,
                root,
                escape_override: clone_opt(&attrs.escape),
                trim_override: attrs.trim,
            };
            let ghost old_nodes = nodes@;
            let ghost old_seen = seen;
            nodes.insert(0, node);
            proof {
                seen = seen.push(p@);
                assert(nodes@ == old_nodes.insert(0, node));
                lemma_chain_text_insert(old_nodes, node);
                assert(seen.drop_last() =~= old_seen);
                assert(seen.last() == p@);
                assert(arrows(seen) == arrows(old_seen) + (p@ + " -> "@));
                assert(nodes@.last() == old_nodes.last());
                assert forall|i: int| 0 <= i < nodes@.len() - 1 implies #[trigger] parent_of(nodes@[i + 1].root) == node_path(nodes@[i])
                    && node_path(nodes@[i]) is Some by {
                    if i > 0 {
                        assert(nodes@[i] == old_nodes[i - 1]);
                        assert(nodes@[i + 1] == old_nodes[i]);
                        assert(parent_of(old_nodes[(i - 1) + 1].root) == node_path(old_nodes[i - 1]));
                    }
                }
                assert forall|i: int, j: int| 0 <= i < nodes@.len() && 0 <= j < nodes@.len() && i != j
                    && #[trigger] node_path(nodes@[i]) is Some implies node_path(nodes@[i]) != #[trigger] node_path(nodes@[j]) by {
                    if i == 0 {
                        assert(nodes@[j] == old_nodes[j - 1]);
                        assert(!old_seen.contains(p@));
                    } else if j == 0 {
                        assert(nodes@[i] == old_nodes[i - 1]);
                        assert(!old_seen.contains(p@));
                    } else {
                        assert(nodes@[i] == old_nodes[i - 1]);
                        assert(nodes@[j] == old_nodes[j - 1]);
                    }
                }
                assert forall|i: int| 0 <= i < nodes@.len() implies node_sourced(#[trigger] nodes@[i], sources.entries(), cfg.delimiters) by {
                    if i > 0 {
                        assert(nodes@[i] == old_nodes[i - 1]);
                    }
                }
                assert forall|i: int| 0 <= i < nodes@.len() implies opt_view(#[trigger] nodes@[i].escape_override) == opt_view(attrs.escape)
                    && nodes@[i].trim_override == attrs.trim by {
                    if i > 0 {
                        assert(nodes@[i] == old_nodes[i - 1]);
                    }
                }
                assert forall|q: Seq<char>| seen.contains(q) <==> exists|k: int| 0 <= k < nodes@.len() && #[trigger] node_path(nodes@[k]) == Some(q) by {
                    if seen.contains(q) {
                        let u = choose|u: int| 0 <= u < seen.len() && seen[u] == q;
                        if u < old_seen.len() {
                            assert(old_seen[u] == q);
                            assert(old_seen.contains(q));
                            let k = choose|k: int| 0 <= k < old_nodes.len() && #[trigger] node_path(old_nodes[k]) == Some(q);
                            assert(nodes@[k + 1] == old_nodes[k]);
                        } else {
                            assert(node_path(nodes@[0]) == Some(q));
                        }
                    }
                    if exists|k: int| 0 <= k < nodes@.len() && #[trigger] node_path(nodes@[k]) == Some(q) {
                        let k = choose|k: int| 0 <= k < nodes@.len() && #[trigger] node_path(nodes@[k]) == Some(q);
                        if k == 0 {
                            assert(seen[seen.len() - 1] == q);
                        } else {
                            assert(nodes@[k] == old_nodes[k - 1]);
                            assert(old_seen.contains(q));
                            let u = choose|u: int| 0 <= u < old_seen.len() && old_seen[u] == q;
                            assert(seen[u] == q);
                        }
                    }
                }
            }
            parent = next;
        }
        Ok(Graph { nodes })
    }
}

/// The block registry of `items`, in the order its entries are made: for
/// each block, the entries of the blocks nested in it, then the block
/// itself. A later entry of a name hides an earlier one.
pub open spec fn block_entries(items: Seq<OwnedItem>) -> Seq<OwnedBlock>
    decreases items,
{
    if items.len() == 0 {
        Seq::empty()
    } else {
        let prev = block_entries(items.subrange(0, items.len() - 1));
        match items[items.len() - 1] {
            OwnedItem::Block(b) => prev + block_entries(b.content@) + seq![b],
            _ => prev,
        }
    }
}

/// The entry the registry `entries` holds for `name`: the last one made.
pub open spec fn registry_find(entries: Seq<OwnedBlock>, name: Seq<char>) -> Option<OwnedBlock>
    decreases entries.len(),
{
    if entries.len() == 0 {
        None
    } else if entries.last().name@ == name {
        Some(entries.last())
    } else {
        registry_find(entries.drop_last(), name)
    }
}

/// The template `n` defines a block `name`, at any depth.
pub open spec fn defines(n: TemplateNode, name: Seq<char>) -> bool {
    registry_find(block_entries(n.root.content@), name) is Some
}

/// The block registry of `items`: every block, nested ones included.
pub fn get_blocks<'a>(items: &'a Vec<OwnedItem>) -> (r: Vec<&'a OwnedBlock>)
    ensures
        r@.len() == block_entries(items@).len(),
        forall|k: int| 0 <= k < r@.len() ==> *#[trigger] r@[k] == block_entries(items@)[k],
    decreases items,
{
    let mut out: Vec<&'a OwnedBlock> = Vec::new();
    let mut i: usize = 0;
    while i < items.len()
        invariant
            i <= items@.len(),
            out@.len() == block_entries(items@.subrange(0, i as int)).len(),
            forall|k: int| 0 <= k < out@.len() ==> *#[trigger] out@[k] == block_entries(items@.subrange(0, i as int))[k],
        decreases items@.len() - i,
    {
        let ghost pre = items@.subrange(0, i + 1);
        proof { assert(pre.subrange(0, pre.len() - 1) =~= items@.subrange(0, i as int)); }
        match &items[i] {
            OwnedItem::Block(b) => {
                let inner = get_blocks(&b.content);
                let ghost before = out@;
                let mut k: usize = 0;
                while k < inner.len()
                    invariant
                        k <= inner@.len(),
                        out@.len() == before.len() + k,
                        forall|t: int| 0 <= t < before.len() ==> #[trigger] out@[t] == before[t],
                        forall|t: int| 0 <= t < k ==> *#[trigger] out@[before.len() + t] == block_entries(b.content@)[t],
                        inner@.len() == block_entries(b.content@).len(),
                        forall|t: int| 0 <= t < inner@.len() ==> *#[trigger] inner@[t] == block_entries(b.content@)[t],
                    decreases inner@.len() - k,
                {
                    out.push(inner[k]);
                    k = k + 1;
                }
                out.push(b);
                proof {
                    let want = block_entries(items@.subrange(0, i as int)) + block_entries(b.content@) + seq![*b];
                    assert(block_entries(pre) == want);
                    assert forall|t: int| 0 <= t < out@.len() implies *#[trigger] out@[t] == want[t] by {
                        if t < before.len() {
                        } else if t < before.len() + inner@.len() {
                            assert(*out@[before.len() + (t - before.len())] == block_entries(b.content@)[t - before.len()]);
                        }
                    }
                }
            },
            _ => {},
        }
        i = i + 1;
    }
    proof { assert(items@.subrange(0, items@.len() as int) =~= items@); }
    out
}

/// The block of `items` that the registry holds for `name`.
pub fn find_block<'a>(items: &'a Vec<OwnedItem>, name: &str) -> (r: Option<&'a OwnedBlock>)
    ensures
        match r {
            Some(b) => registry_find(block_entries(items@), name@) == Some(*b),
            None => registry_find(block_entries(items@), name@) is None,
        },
{
    let entries = get_blocks(items);
    let ghost es = block_entries(items@);
    let key = String::from_str(name);
    let mut i: usize = entries.len();
    proof { assert(es.subrange(0, i as int) =~= es); }
    while i > 0
        invariant
            i <= entries@.len(),
            es == block_entries(items@),
            entries@.len() == es.len(),
            forall|k: int| 0 <= k < entries@.len() ==> *#[trigger] entries@[k] == es[k],
            key@ == name@,
            registry_find(es, name@) == registry_find(es.subrange(0, i as int), name@),
        decreases i,
    {
        proof { assert(es.subrange(0, i as int).drop_last() =~= es.subrange(0, i - 1)); }
        let b = entries[i - 1];
        proof {
            assert(es.subrange(0, i as int).last() == es[i - 1]);
            assert(*b == es[i - 1]);
        }
        if b.name == key {
            proof {
                assert(es[i - 1].name@ == name@);
                assert(registry_find(es.subrange(0, i as int), name@) == Some(es[i - 1]));
            }
            return Some(b);
        }
        i = i - 1;
    }
    None
}

impl Graph {
    /// The last template from `i` on that defines a block `name`, or `i`
    /// where none after it does.
    pub fn deepest_child(&self, i: usize, name: &str) -> (r: usize)
        requires
            i < self.nodes@.len(),
        ensures
            i <= r < self.nodes@.len(),
            r == i || defines(self.nodes@[r as int], name@),
            forall|k: int| r < k < self.nodes@.len() ==> !defines(#[trigger] self.nodes@[k], name@),
    {
        let n = self.nodes.len();
        let mut cur = i;
        let mut j = i + 1;
        while j < self.nodes.len()
            invariant
                i <= cur < j <= self.nodes@.len(),
                cur == i || defines(self.nodes@[cur as int], name@),
                forall|k: int| cur < k < j ==> !defines(#[trigger] self.nodes@[k], name@),
            decreases self.nodes@.len() - j,
        {
            if find_block(&self.nodes[j].root.content, name).is_some() {
                cur = j;
            }
            j = j + 1;
        }
        cur
    }
}

proof fn lemma_entries_hold(items: Seq<OwnedItem>, i: int)
    requires
        0 <= i < items.len(),
        items[i] is Block,
    ensures
        ({
            let b = items[i]->Block_0;
            &&& block_entries(items).contains(b)
            &&& forall|e: OwnedBlock| block_entries(b.content@).contains(e) ==> #[trigger] block_entries(items).contains(e)
        }),
    decreases items.len(),
{
    let n = items.len() - 1;
    let init = items.subrange(0, n);
    let b = items[i]->Block_0;
    let prev = block_entries(init);
    if i == n {
        let all = prev + block_entries(b.content@) + seq![b];
        assert(all[all.len() - 1] == b);
        assert forall|e: OwnedBlock| block_entries(b.content@).contains(e) implies #[trigger] all.contains(e) by {
            let k = choose|k: int| 0 <= k < block_entries(b.content@).len() && block_entries(b.content@)[k] == e;
            assert(all[prev.len() + k] == e);
        }
    } else {
        assert(init[i] == items[i]);
        lemma_entries_hold(init, i);
        let all = block_entries(items);
        assert forall|e: OwnedBlock| prev.contains(e) implies #[trigger] all.contains(e) by {
            let k = choose|k: int| 0 <= k < prev.len() && prev[k] == e;
            match items[n] {
                OwnedItem::Block(c) => {
                    assert(all == prev + block_entries(c.content@) + seq![c]);
                    assert(all[k] == e);
                },
                _ => {},
            }
        }
    }
}

proof fn lemma_find_present(entries: Seq<OwnedBlock>, e: OwnedBlock)
    requires
        entries.contains(e),
    ensures
        registry_find(entries, e.name@) is Some,
    decreases entries.len(),
{
    if entries.last().name@ != e.name@ {
        let k = choose|k: int| 0 <= k < entries.len() && entries[k] == e;
        assert(entries.drop_last()[k] == e);
        lemma_find_present(entries.drop_last(), e);
    }
}

/// A block nested two levels deep is found by its own name in the registry
/// of the template that holds it, whatever the names of the blocks around it.
pub proof fn lemma_nested_block_registered(items: Seq<OwnedItem>, i: int, j: int, k: int)
    requires
        0 <= i < items.len(),
        items[i] is Block,
        0 <= j < items[i]->Block_0.content@.len(),
        items[i]->Block_0.content@[j] is Block,
        0 <= k < items[i]->Block_0.content@[j]->Block_0.content@.len(),
        items[i]->Block_0.content@[j]->Block_0.content@[k] is Block,
    ensures
        registry_find(
            block_entries(items),
            items[i]->Block_0.content@[j]->Block_0.content@[k]->Block_0.name@,
        ) is Some,
{
    let b1 = items[i]->Block_0;
    let b2 = b1.content@[j]->Block_0;
    let b3 = b2.content@[k]->Block_0;
    lemma_entries_hold(b2.content@, k);
    lemma_entries_hold(b1.content@, j);
    lemma_entries_hold(items, i);
    assert(block_entries(b2.content@).contains(b3));
    assert(block_entries(b1.content@).contains(b3));
    assert(block_entries(items).contains(b3));
    lemma_find_present(block_entries(items), b3);
}

/// The resolved document: what a renderer emits, in order.
#[derive(Debug, PartialEq, Eq)]
pub enum Resolved {
    /// Literal text.
    Text(String),
    /// Host code whose value is written through the escaper `escaper`.
    Expr { code: String, escaper: String },
    /// A host statement.
    Stmt(String),
    For { pat: String, expr: String, content: Vec<Resolved> },
    If { cond: String, content: Vec<Resolved>, branch: ResolvedBranch },
    Match { expr: String, arms: Vec<ResolvedArm> },
    MacroDef { name: String, args: String, content: Vec<Resolved> },
    MacroCall { name: String, args: String },
    /// An included template, resolved on its own, with the fields bound
    /// around it.
    Include { args: String, content: Vec<Resolved> },
}

#[derive(Debug, PartialEq, Eq)]
pub enum ResolvedBranch {
    ElseIf { cond: String, content: Vec<Resolved>, branch: Box<ResolvedBranch> },
    Else { content: Vec<Resolved> },
    End,
}

#[derive(Debug, PartialEq, Eq)]
pub struct ResolvedArm {
    pub pat: String,
    pub guard: Option<String>,
    pub content: Vec<Resolved>,
}

/// What a resolved item shows of itself: all of it but what an include
/// holds, which depends on the templates it loads.
pub enum Shape {
    Text(Seq<char>),
    Expr(Seq<char>, Seq<char>),
    Stmt(Seq<char>),
    For(Seq<char>, Seq<char>, Seq<Shape>),
    If(Seq<char>, Seq<Shape>, BranchShape),
    Match(Seq<char>, Seq<ArmShape>),
    MacroDef(Seq<char>, Seq<char>, Seq<Shape>),
    MacroCall(Seq<char>, Seq<char>),
    Include(Seq<char>),
}

/// The shape of a resolved branch.
pub enum BranchShape {
    ElseIf(Seq<char>, Seq<Shape>, Box<BranchShape>),
    Else(Seq<Shape>),
    End,
}

/// The shape of a resolved arm.
pub struct ArmShape {
    pub pat: Seq<char>,
    pub guard: Option<Seq<char>>,
    pub content: Seq<Shape>,
}

/// The text of an optional string.
pub open spec fn opt_view(o: Option<String>) -> Option<Seq<char>> {
    match o {
        Some(s) => Some(s@),
        None => None,
    }
}

/// The shape of `r`.
pub open spec fn shape_of(r: Resolved) -> Shape
    decreases r,
{
    match r {
        Resolved::Text(t) => Shape::Text(t@),
        Resolved::Expr { code, escaper } => Shape::Expr(code@, escaper@),
        Resolved::Stmt(t) => Shape::Stmt(t@),
        Resolved::For { pat, expr, content } => Shape::For(pat@, expr@, shapes_of(content@)),
        Resolved::If { cond, content, branch } => Shape::If(cond@, shapes_of(content@), branch_shape(branch)),
        Resolved::Match { expr, arms } => Shape::Match(expr@, arm_shapes(arms@)),
        Resolved::MacroDef { name, args, content } => Shape::MacroDef(name@, args@, shapes_of(content@)),
        Resolved::MacroCall { name, args } => Shape::MacroCall(name@, args@),
        Resolved::Include { args, .. } => Shape::Include(args@),
    }
}

/// The shapes of `rs`, in order.
pub open spec fn shapes_of(rs: Seq<Resolved>) -> Seq<Shape>
    decreases rs,
{
    if rs.len() == 0 {
        Seq::empty()
    } else {
        shapes_of(rs.subrange(0, rs.len() - 1)).push(shape_of(rs[rs.len() - 1]))
    }
}

/// The shape of a resolved branch `b`.
pub open spec fn branch_shape(b: ResolvedBranch) -> BranchShape
    decreases b,
{
    match b {
        ResolvedBranch::ElseIf { cond, content, branch } => BranchShape::ElseIf(cond@, shapes_of(content@), Box::new(branch_shape(*branch))),
        ResolvedBranch::Else { content } => BranchShape::Else(shapes_of(content@)),
        ResolvedBranch::End => BranchShape::End,
    }
}

/// The shapes of the resolved arms `arms`, in order.
pub open spec fn arm_shapes(arms: Seq<ResolvedArm>) -> Seq<ArmShape>
    decreases arms,
{
    if arms.len() == 0 {
        Seq::empty()
    } else {
        let a = arms[arms.len() - 1];
        arm_shapes(arms.subrange(0, arms.len() - 1)).push(
            ArmShape { pat: a.pat@, guard: opt_view(a.guard), content: shapes_of(a.content@) },
        )
    }
}

proof fn lemma_shapes_push(a: Seq<Resolved>, x: Resolved)
    ensures
        shapes_of(a.push(x)) == shapes_of(a).push(shape_of(x)),
{
    assert(a.push(x).subrange(0, a.len() as int) =~= a);
}

proof fn lemma_shapes_append(a: Seq<Resolved>, b: Seq<Resolved>)
    ensures
        shapes_of(a + b) == shapes_of(a) + shapes_of(b),
    decreases b.len(),
{
    if b.len() == 0 {
        assert(a + b =~= a);
        assert(shapes_of(a) + shapes_of(b) =~= shapes_of(a));
    } else {
        let init = b.subrange(0, b.len() - 1);
        let last = b[b.len() - 1];
        assert(a + b =~= (a + init).push(last));
        assert(b =~= init.push(last));
        lemma_shapes_push(a + init, last);
        lemma_shapes_push(init, last);
        lemma_shapes_append(a, init);
        assert(shapes_of(a) + shapes_of(init).push(shape_of(last)) =~= (shapes_of(a) + shapes_of(init)).push(shape_of(last)));
    }
}

proof fn lemma_arm_shapes_push(a: Seq<ResolvedArm>, x: ResolvedArm)
    ensures
        arm_shapes(a.push(x)) == arm_shapes(a).push(
            ArmShape { pat: x.pat@, guard: opt_view(x.guard), content: shapes_of(x.content@) },
        ),
{
    assert(a.push(x).subrange(0, a.len() as int) =~= a);
}

proof fn lemma_shapes_one(x: Resolved)
    ensures
        shapes_of(seq![x]) == seq![shape_of(x)],
{
    lemma_shapes_push(Seq::empty(), x);
    assert(Seq::<Resolved>::empty().push(x) =~= seq![x]);
    assert(shapes_of(Seq::<Resolved>::empty()) =~= Seq::<Shape>::empty());
    assert(Seq::<Shape>::empty().push(shape_of(x)) =~= seq![shape_of(x)]);
}

proof fn lemma_find_some_iff(entries: Seq<OwnedBlock>, name: Seq<char>)
    ensures
        registry_find(entries, name) is Some <==> exists|k: int| 0 <= k < entries.len() && (#[trigger] entries[k]).name@ == name,
    decreases entries.len(),
{
    if entries.len() > 0 {
        lemma_find_some_iff(entries.drop_last(), name);
        if registry_find(entries, name) is Some && entries.last().name@ != name {
            let k = choose|k: int| 0 <= k < entries.drop_last().len() && (#[trigger] entries.drop_last()[k]).name@ == name;
            assert(entries[k] == entries.drop_last()[k]);
        }
        if exists|k: int| 0 <= k < entries.len() && (#[trigger] entries[k]).name@ == name {
            let k = choose|k: int| 0 <= k < entries.len() && (#[trigger] entries[k]).name@ == name;
            if k < entries.len() - 1 {
                assert(entries.drop_last()[k] == entries[k]);
            }
        }
    }
}

/// `it` holds no `include`, at any depth.
pub open spec fn item_inc_free(it: OwnedItem) -> bool
    decreases it,
{
    match it {
        OwnedItem::Content(_) => true,
        OwnedItem::Block(b) => items_inc_free(b.content@),
        OwnedItem::For(x) => items_inc_free(x.content@),
        OwnedItem::If(x) => items_inc_free(x.content@) && branch_inc_free(x.branch),
        OwnedItem::Match(x) => forall|k: int| 0 <= k < x.arms@.len() ==> items_inc_free(#[trigger] x.arms@[k].content@),
        OwnedItem::Macro(x) => items_inc_free(x.content@),
        OwnedItem::Expr(e) => !(e is Include),
    }
}

/// `items` hold no `include`, at any depth.
pub open spec fn items_inc_free(items: Seq<OwnedItem>) -> bool
    decreases items,
{
    forall|k: int| 0 <= k < items.len() ==> item_inc_free(#[trigger] items[k])
}

/// The branch `b` holds no `include`, at any depth.
pub open spec fn branch_inc_free(b: OwnedBranch) -> bool
    decreases b,
{
    match b {
        OwnedBranch::ElseIf { content, branch, .. } => items_inc_free(content@) && branch_inc_free(*branch),
        OwnedBranch::Else { content } => items_inc_free(content@),
        OwnedBranch::End => true,
    }
}

/// No template of the chain `g` holds an `include`.
pub open spec fn chain_inc_free(g: Seq<TemplateNode>) -> bool {
    forall|i: int| 0 <= i < g.len() ==> items_inc_free(#[trigger] g[i].root.content@)
}

proof fn lemma_entries_free(items: Seq<OwnedItem>)
    requires
        items_inc_free(items),
    ensures
        forall|k: int| 0 <= k < block_entries(items).len() ==> items_inc_free(#[trigger] block_entries(items)[k].content@),
    decreases items,
{
    if items.len() > 0 {
        let init = items.subrange(0, items.len() - 1);
        assert forall|k: int| 0 <= k < init.len() implies item_inc_free(#[trigger] init[k]) by {
            assert(init[k] == items[k]);
        }
        lemma_entries_free(init);
        let last = items[items.len() - 1];
        assert(item_inc_free(last));
        match last {
            OwnedItem::Block(b) => {
                lemma_entries_free(b.content@);
                let all = block_entries(items);
                let prev = block_entries(init);
                let inner = block_entries(b.content@);
                assert(all == prev + inner + seq![b]);
                assert forall|k: int| 0 <= k < all.len() implies items_inc_free(#[trigger] all[k].content@) by {
                    if k < prev.len() {
                        assert(all[k] == prev[k]);
                    } else if k < prev.len() + inner.len() {
                        assert(all[k] == inner[k - prev.len()]);
                    } else {
                        assert(all[k] == b);
                    }
                }
            },
            _ => {},
        }
    }
}

proof fn lemma_find_member(entries: Seq<OwnedBlock>, name: Seq<char>)
    ensures
        registry_find(entries, name) matches Some(b) ==> exists|k: int| 0 <= k < entries.len() && #[trigger] entries[k] == b,
    decreases entries.len(),
{
    if entries.len() > 0 && entries.last().name@ != name {
        lemma_find_member(entries.drop_last(), name);
        if let Some(b) = registry_find(entries, name) {
            let k = choose|k: int| 0 <= k < entries.drop_last().len() && #[trigger] entries.drop_last()[k] == b;
            assert(entries[k] == b);
        }
    } else if entries.len() > 0 {
        assert(entries[entries.len() - 1] == entries.last());
    }
}

/// The block the registry of a template without `include` holds has none.
proof fn lemma_found_free(items: Seq<OwnedItem>, name: Seq<char>)
    requires
        items_inc_free(items),
    ensures
        registry_find(block_entries(items), name) matches Some(b) ==> items_inc_free(b.content@),
{
    lemma_entries_free(items);
    lemma_find_member(block_entries(items), name);
}

proof fn lemma_items_prefix(g: Seq<TemplateNode>, cfg: Config, i: int, items: Seq<OwnedItem>, fuel: nat, k: int)
    requires
        items_plan(g, cfg, i, items, fuel) is Some,
        0 <= k < items.len(),
    ensures
        items_plan(g, cfg, i, items.subrange(0, k), fuel) is Some,
        item_plan(g, cfg, i, items[k], fuel) is Some,
    decreases items.len() - k,
{
    if k + 1 < items.len() {
        lemma_items_prefix(g, cfg, i, items, fuel, k + 1);
        let pre = items.subrange(0, k + 1);
        assert(pre.subrange(0, k) =~= items.subrange(0, k));
        assert(pre[k] == items[k]);
    } else {
        assert(items.subrange(0, k) =~= items.subrange(0, items.len() - 1));
    }
}

proof fn lemma_body_prefix(g: Seq<TemplateNode>, cfg: Config, j: int, name: Seq<char>, items: Seq<OwnedItem>, fuel: nat, k: int)
    requires
        body_items_plan(g, cfg, j, name, items, fuel) is Some,
        0 <= k < items.len(),
    ensures
        body_items_plan(g, cfg, j, name, items.subrange(0, k), fuel) is Some,
        items.subrange(0, k + 1).subrange(0, k) == items.subrange(0, k),
        body_items_plan(g, cfg, j, name, items.subrange(0, k + 1), fuel) is Some,
    decreases items.len() - k,
{
    assert(items.subrange(0, k + 1).subrange(0, k) =~= items.subrange(0, k));
    if k + 1 < items.len() {
        lemma_body_prefix(g, cfg, j, name, items, fuel, k + 1);
        assert(items.subrange(0, k + 2).subrange(0, k + 1) =~= items.subrange(0, k + 1));
    } else {
        assert(items.subrange(0, k + 1) =~= items);
    }
}

proof fn lemma_arms_prefix(g: Seq<TemplateNode>, cfg: Config, i: int, arms: Seq<OwnedArm>, fuel: nat, k: int)
    requires
        arms_plan(g, cfg, i, arms, fuel) is Some,
        0 <= k < arms.len(),
    ensures
        items_plan(g, cfg, i, arms[k].content@, fuel) is Some,
    decreases arms.len() - k,
{
    if k + 1 < arms.len() {
        let pre = arms.subrange(0, k + 1);
        lemma_arms_prefix_sub(g, cfg, i, arms, fuel, k + 1);
        assert(pre[k] == arms[k]);
    }
}

proof fn lemma_arms_prefix_sub(g: Seq<TemplateNode>, cfg: Config, i: int, arms: Seq<OwnedArm>, fuel: nat, k: int)
    requires
        arms_plan(g, cfg, i, arms, fuel) is Some,
        0 <= k <= arms.len(),
    ensures
        arms_plan(g, cfg, i, arms.subrange(0, k), fuel) is Some,
    decreases arms.len() - k,
{
    if k < arms.len() {
        lemma_arms_prefix_sub(g, cfg, i, arms, fuel, k + 1);
        assert(arms.subrange(0, k + 1).subrange(0, k) =~= arms.subrange(0, k));
    } else {
        assert(arms.subrange(0, k) =~= arms);
    }
}

proof fn lemma_node_prefix(g: Seq<TemplateNode>, cfg: Config, i: int, items: Seq<OwnedItem>, fuel: nat, k: int)
    requires
        node_plan(g, cfg, i, items, fuel) is Some,
        0 <= k <= items.len(),
    ensures
        node_plan(g, cfg, i, items.subrange(0, k), fuel) is Some,
    decreases items.len() - k,
{
    if k < items.len() {
        lemma_node_prefix(g, cfg, i, items, fuel, k + 1);
        assert(items.subrange(0, k + 1).subrange(0, k) =~= items.subrange(0, k));
    } else {
        assert(items.subrange(0, k) =~= items);
    }
}

proof fn lemma_chain_prefix(g: Seq<TemplateNode>, cfg: Config, n: int, fuel: nat, k: int)
    requires
        chain_plan(g, cfg, n, fuel) is Some,
        0 <= k <= n,
    ensures
        chain_plan(g, cfg, k, fuel) is Some,
        k < n ==> node_plan(g, cfg, k, g[k].root.content@, fuel) is Some,
    decreases n - k,
{
    if k < n {
        lemma_chain_prefix(g, cfg, n, fuel, k + 1);
    }
}

/// The index of the last template of `g` in `[i, hi)` that defines the
/// block `name`, or -1.
pub open spec fn last_defining(g: Seq<TemplateNode>, i: int, name: Seq<char>, hi: int) -> int
    decreases hi - i,
{
    if hi <= i {
        -1
    } else if defines(g[hi - 1], name) {
        hi - 1
    } else {
        last_defining(g, i, name, hi - 1)
    }
}

proof fn lemma_last_defining(g: Seq<TemplateNode>, i: int, name: Seq<char>, hi: int, d: int)
    requires
        0 <= i,
        hi <= g.len(),
        (i <= d < hi && defines(g[d], name)) || d == -1,
        d == -1 ==> forall|k: int| i <= k < hi ==> !defines(#[trigger] g[k], name),
        forall|k: int| d < k < hi && i <= k ==> !defines(#[trigger] g[k], name),
    ensures
        last_defining(g, i, name, hi) == d,
    decreases hi - i,
{
    if hi > i && !defines(g[hi - 1], name) {
        lemma_last_defining(g, i, name, hi - 1, d);
    }
}

/// What resolving `item` of the template at `i` of the chain `g` yields,
/// with `fuel` levels of nesting left; none where it fails.
pub open spec fn item_plan(g: Seq<TemplateNode>, cfg: Config, i: int, item: OwnedItem, fuel: nat) -> Option<Seq<Shape>>
    decreases fuel, 0int, 0int,
{
    if fuel == 0 {
        None
    } else {
        let f = (fuel - 1) as nat;
        match item {
            OwnedItem::Content(c) => Some(if trimmed(c@).len() == 0 {
                Seq::empty()
            } else {
                seq![Shape::Text(if node_trim(cfg, g[i]) { trimmed(c@) } else { c@ })]
            }),
            OwnedItem::Block(b) => block_plan(g, cfg, i, b.name@, f),
            OwnedItem::For(x) => match items_plan(g, cfg, i, x.content@, f) {
                Some(c) => Some(seq![Shape::For(x.pat@, x.expr@, c)]),
                None => None,
            },
            OwnedItem::If(x) => match (items_plan(g, cfg, i, x.content@, f), branch_plan(g, cfg, i, x.branch, f)) {
                (Some(c), Some(b)) => Some(seq![Shape::If(x.cond@, c, b)]),
                _ => None,
            },
            OwnedItem::Match(x) => match arms_plan(g, cfg, i, x.arms@, f) {
                Some(a) => Some(seq![Shape::Match(x.expr@, a)]),
                None => None,
            },
            OwnedItem::Macro(x) => match items_plan(g, cfg, i, x.content@, f) {
                Some(c) => Some(seq![Shape::MacroDef(x.name@, x.args@, c)]),
                None => None,
            },
            OwnedItem::Expr(e) => match e {
                OwnedExpr::Extends(_) => Some(Seq::empty()),
                OwnedExpr::SuperCall => Some(Seq::empty()),
                OwnedExpr::Include { args, .. } => Some(seq![Shape::Include(args@)]),
                OwnedExpr::MacroCall { name, args } => Some(seq![Shape::MacroCall(name@, args@)]),
                OwnedExpr::Stmt(t) => Some(seq![Shape::Stmt(t@)]),
                OwnedExpr::Expr(t) => Some(seq![Shape::Expr(t@, node_escaper(cfg, g[i]))]),
            },
        }
    }
}

/// What resolving `items` of the template at `i` yields, in order.
pub open spec fn items_plan(g: Seq<TemplateNode>, cfg: Config, i: int, items: Seq<OwnedItem>, fuel: nat) -> Option<Seq<Shape>>
    decreases fuel, 1int, items.len(),
{
    if items.len() == 0 {
        Some(Seq::empty())
    } else {
        match (items_plan(g, cfg, i, items.subrange(0, items.len() - 1), fuel), item_plan(g, cfg, i, items[items.len() - 1], fuel)) {
            (Some(a), Some(b)) => Some(a + b),
            _ => None,
        }
    }
}

/// What resolving the branch `b` of the template at `i` yields.
pub open spec fn branch_plan(g: Seq<TemplateNode>, cfg: Config, i: int, b: OwnedBranch, fuel: nat) -> Option<BranchShape>
    decreases fuel, 0int, 0int,
{
    if fuel == 0 {
        None
    } else {
        let f = (fuel - 1) as nat;
        match b {
            OwnedBranch::ElseIf { cond, content, branch } => match (items_plan(g, cfg, i, content@, f), branch_plan(g, cfg, i, *branch, f)) {
                (Some(c), Some(n)) => Some(BranchShape::ElseIf(cond@, c, Box::new(n))),
                _ => None,
            },
            OwnedBranch::Else { content } => match items_plan(g, cfg, i, content@, f) {
                Some(c) => Some(BranchShape::Else(c)),
                None => None,
            },
            OwnedBranch::End => Some(BranchShape::End),
        }
    }
}

/// What resolving the arms `arms` of the template at `i` yields, in order.
pub open spec fn arms_plan(g: Seq<TemplateNode>, cfg: Config, i: int, arms: Seq<OwnedArm>, fuel: nat) -> Option<Seq<ArmShape>>
    decreases fuel, 2int, arms.len(),
{
    if arms.len() == 0 {
        Some(Seq::empty())
    } else {
        let a = arms[arms.len() - 1];
        match (arms_plan(g, cfg, i, arms.subrange(0, arms.len() - 1), fuel), items_plan(g, cfg, i, a.content@, fuel)) {
            (Some(prev), Some(c)) => Some(prev.push(ArmShape { pat: a.pat@, guard: opt_view(a.guard), content: c })),
            _ => None,
        }
    }
}

/// What resolving the block `name` met in the template at `i` yields: the
/// body of the last template from `i` on that defines it.
pub open spec fn block_plan(g: Seq<TemplateNode>, cfg: Config, i: int, name: Seq<char>, fuel: nat) -> Option<Seq<Shape>>
    decreases fuel, 0int, 0int,
{
    if fuel == 0 {
        None
    } else {
        let d = last_defining(g, i, name, g.len() as int);
        if d >= 0 {
            match registry_find(block_entries(g[d].root.content@), name) {
                Some(b) => body_plan(g, cfg, d, b, (fuel - 1) as nat),
                None => Some(Seq::empty()),
            }
        } else {
            Some(Seq::empty())
        }
    }
}

/// What the body of `block`, as the template at `j` defines it, yields.
pub open spec fn body_plan(g: Seq<TemplateNode>, cfg: Config, j: int, block: OwnedBlock, fuel: nat) -> Option<Seq<Shape>>
    decreases fuel, 0int, 0int,
{
    if fuel == 0 {
        None
    } else {
        body_items_plan(g, cfg, j, block.name@, block.content@, (fuel - 1) as nat)
    }
}

/// What the items `items` of a body of the block `name`, as the template at
/// `j` defines it, yield: `super()` gives the body that the template just
/// before `j` defines, or nothing where it defines none.
pub open spec fn body_items_plan(g: Seq<TemplateNode>, cfg: Config, j: int, name: Seq<char>, items: Seq<OwnedItem>, fuel: nat) -> Option<Seq<Shape>>
    decreases fuel, 1int, items.len(),
{
    if items.len() == 0 {
        Some(Seq::empty())
    } else {
        let last = items[items.len() - 1];
        let here = match last {
            OwnedItem::Expr(OwnedExpr::SuperCall) => if j > 0 && defines(g[j - 1], name) {
                body_plan(g, cfg, j - 1, registry_find(block_entries(g[j - 1].root.content@), name)->Some_0, fuel)
            } else {
                Some(Seq::empty())
            },
            _ => item_plan(g, cfg, j, last, fuel),
        };
        match (body_items_plan(g, cfg, j, name, items.subrange(0, items.len() - 1), fuel), here) {
            (Some(a), Some(b)) => Some(a + b),
            _ => None,
        }
    }
}

/// Some template of `g` before `i` defines the block `name`.
pub open spec fn registered(g: Seq<TemplateNode>, i: int, name: Seq<char>) -> bool {
    exists|k: int| 0 <= k < i && defines(#[trigger] g[k], name)
}

/// What the root items `items` of the template at `i` yield: each block a
/// template before it defines is left out.
pub open spec fn node_plan(g: Seq<TemplateNode>, cfg: Config, i: int, items: Seq<OwnedItem>, fuel: nat) -> Option<Seq<Shape>>
    decreases items.len(),
{
    if items.len() == 0 {
        Some(Seq::empty())
    } else {
        let last = items[items.len() - 1];
        let here = match last {
            OwnedItem::Block(b) => if registered(g, i, b.name@) {
                Some(Seq::empty())
            } else {
                item_plan(g, cfg, i, last, fuel)
            },
            _ => item_plan(g, cfg, i, last, fuel),
        };
        match (node_plan(g, cfg, i, items.subrange(0, items.len() - 1), fuel), here) {
            (Some(a), Some(b)) => Some(a + b),
            _ => None,
        }
    }
}

/// What the first `n` templates of the chain `g` yield, root ancestor first.
pub open spec fn chain_plan(g: Seq<TemplateNode>, cfg: Config, n: int, fuel: nat) -> Option<Seq<Shape>>
    decreases n,
{
    if n <= 0 {
        Some(Seq::empty())
    } else {
        match (chain_plan(g, cfg, n - 1, fuel), node_plan(g, cfg, n - 1, g[n - 1].root.content@, fuel)) {
            (Some(a), Some(b)) => Some(a + b),
            _ => None,
        }
    }
}

/// The literal text `c` as it is emitted under the trim policy `trim_it`:
/// trimmed or as it stands, and nothing where it is all whitespace.
pub fn content_text(c: &str, trim_it: bool) -> (r: Option<String>)
    ensures
        trimmed(c@).len() == 0 ==> r is None,
        trimmed(c@).len() > 0 ==> (r matches Some(t) && t@ == if trim_it { trimmed(c@) } else { c@ }),
{
    let t = trim(c);
    if t.as_str().unicode_len() == 0 {
        None
    } else if trim_it {
        Some(t)
    } else {
        Some(String::from_str(c))
    }
}

/// Index just past the last `/` of `s`, or 0.
pub open spec fn name_start(s: Seq<char>) -> int
    decreases s.len(),
{
    if s.len() == 0 {
        0
    } else if s.last() == '/' {
        s.len() as int
    } else {
        name_start(s.drop_last())
    }
}

/// Index of the last `.` of `s` at or after `lo`, or -1.
pub open spec fn last_dot(s: Seq<char>, lo: int) -> int
    decreases s.len(),
{
    if s.len() == 0 || s.len() <= lo {
        -1
    } else if s.last() == '.' {
        s.len() - 1
    } else {
        last_dot(s.drop_last(), lo)
    }
}

/// The extension of the file named by the path `p`: what follows the last
/// `.` of its last component, where that `.` does not open the component.
pub open spec fn extension_of(p: Seq<char>) -> Seq<char> {
    let n = name_start(p);
    let d = last_dot(p, n);
    if d > n {
        p.subrange(d + 1, p.len() as int)
    } else {
        Seq::empty()
    }
}

/// The extension of the file named by `path`, or nothing.
pub fn extension(path: &str) -> (r: String)
    ensures
        r@ == extension_of(path@),
{
    let cs = chars_of(path);
    let ghost s = cs@;
    let mut n: usize = cs.len();
    proof { assert(s.subrange(0, n as int) =~= s); }
    while n > 0 && cs[n - 1] != '/'
        invariant
            n <= s.len(),
            s == cs@,
            name_start(s) == name_start(s.subrange(0, n as int)),
        decreases n,
    {
        proof { assert(s.subrange(0, n as int).drop_last() =~= s.subrange(0, n - 1)); }
        n = n - 1;
    }
    let ghost ns = name_start(s);
    proof {
        if n > 0 {
            assert(s.subrange(0, n as int).last() == '/');
        }
        assert(ns == n);
    }
    let mut d: usize = cs.len();
    proof { assert(s.subrange(0, d as int) =~= s); }
    while d > n && cs[d - 1] != '.'
        invariant
            n <= d <= s.len(),
            s == cs@,
            ns == n,
            last_dot(s, n as int) == last_dot(s.subrange(0, d as int), n as int),
        decreases d,
    {
        proof { assert(s.subrange(0, d as int).drop_last() =~= s.subrange(0, d - 1)); }
        d = d - 1;
    }
    proof {
        if d > n {
            assert(s.subrange(0, d as int).last() == '.');
            assert(last_dot(s, n as int) == d - 1);
        } else {
            assert(last_dot(s, n as int) == -1);
        }
    }
    if d > n + 1 {
        crate::located::text_of(vstd::slice::slice_subrange(cs.as_slice(), d, cs.len()))
    } else {
        String::new()
    }
}

/// The escaper that host expressions of the template `n` are written through.
pub open spec fn node_escaper(cfg: Config, n: TemplateNode) -> Seq<char> {
    match n.escape_override {
        Some(e) => e@,
        None => escaper_in(cfg.table(), extension_of(match n.path {
            Some(p) => p@,
            None => Seq::empty(),
        })),
    }
}

/// The trim policy of the template `n`.
pub open spec fn node_trim(cfg: Config, n: TemplateNode) -> bool {
    match n.trim_override {
        Some(t) => t,
        None => cfg.trim,
    }
}

fn contains_name(names: &Vec<String>, name: &String) -> (r: bool)
    ensures
        r <==> exists|k: int| 0 <= k < names@.len() && #[trigger] names@[k]@ == name@,
{
    let mut i: usize = 0;
    while i < names.len()
        invariant
            i <= names@.len(),
            forall|k: int| 0 <= k < i ==> #[trigger] names@[k]@ != name@,
        decreases names@.len() - i,
    {
        if names[i] == *name {
            return true;
        }
        i = i + 1;
    }
    false
}

impl Graph {
    /// The escaper for host expressions of the template at `i`.
    pub fn escaper_for(&self, cfg: &Config, i: usize) -> (r: String)
        requires
            i < self.nodes@.len(),
        ensures
            r@ == node_escaper(*cfg, self.nodes@[i as int]),
    {
        let n = &self.nodes[i];
        match &n.escape_override {
            Some(e) => e.clone(),
            None => {
                let ext = match &n.path {
                    Some(p) => extension(p.as_str()),
                    None => extension(""),
                };
                proof { reveal_strlit(""); }
                cfg.escaper(ext.as_str())
            },
        }
    }

    /// The trim policy of the template at `i`.
    pub fn trim_for(&self, cfg: &Config, i: usize) -> (r: bool)
        requires
            i < self.nodes@.len(),
        ensures
            r == node_trim(*cfg, self.nodes@[i as int]),
    {
        match self.nodes[i].trim_override {
            Some(t) => t,
            None => cfg.trim,
        }
    }

    /// Resolve the whole chain, root ancestor first. A template's own blocks
    /// whose names an earlier template already registered are left out
    /// there: the earlier template's block already emits the deepest
    /// override. Nesting beyond `fuel` levels fails.
    pub fn expand(&self, cfg: &Config, sources: &Sources, fuel: usize) -> (r: Result<Vec<Resolved>, Diagnostic>)
        requires
            cfg.delimiters.usable(),
        ensures
            r matches Ok(v) ==> chain_plan(self.nodes@, *cfg, self.nodes@.len() as int, fuel as nat) == Some(shapes_of(v@)),
            (chain_plan(self.nodes@, *cfg, self.nodes@.len() as int, fuel as nat) is Some && chain_inc_free(self.nodes@))
                ==> r is Ok,
        decreases fuel, 2int,
    {
        let ghost g = self.nodes@;
        let mut out: Vec<Resolved> = Vec::new();
        let mut done: Vec<String> = Vec::new();
        let mut i: usize = 0;
        proof { assert(shapes_of(out@) =~= Seq::<Shape>::empty()); }
        while i < self.nodes.len()
            invariant
                cfg.delimiters.usable(),
                g == self.nodes@,
                i <= g.len(),
                chain_plan(g, *cfg, i as int, fuel as nat) == Some(shapes_of(out@)),
                forall|n: Seq<char>| (exists|t: int| 0 <= t < done@.len() && (#[trigger] done@[t])@ == n)
                    <==> registered(g, i as int, n),
            decreases g.len() - i,
        {
            let items = &self.nodes[i].root.content;
            let mut part_out: Vec<Resolved> = Vec::new();
            let mut k: usize = 0;
            proof {
                assert(items@.subrange(0, 0) =~= Seq::<OwnedItem>::empty());
                assert(shapes_of(part_out@) =~= Seq::<Shape>::empty());
            }
            while k < items.len()
                invariant
                    cfg.delimiters.usable(),
                    g == self.nodes@,
                    i < g.len(),
                    items == &g[i as int].root.content,
                    k <= items@.len(),
                    node_plan(g, *cfg, i as int, items@.subrange(0, k as int), fuel as nat) == Some(shapes_of(part_out@)),
                    forall|n: Seq<char>| (exists|t: int| 0 <= t < done@.len() && (#[trigger] done@[t])@ == n)
                        <==> registered(g, i as int, n),
                decreases items@.len() - k,
            {
                let ghost before = part_out@;
                proof {
                    assert(items@.subrange(0, k + 1).subrange(0, k as int) =~= items@.subrange(0, k as int));
                    assert(items@.subrange(0, k + 1)[k as int] == items@[k as int]);
                }
                let skip = match &items[k] {
                    OwnedItem::Block(b) => contains_name(&done, &b.name),
                    _ => false,
                };
                if !skip {
                    match self.expand_item(cfg, sources, i, &items[k], fuel) {
                        Ok(mut part) => {
                            let ghost got = part@;
                            part_out.append(&mut part);
                            proof { lemma_shapes_append(before, got); }
                        },
                        Err(e) => {
                            proof {
                                if chain_plan(g, *cfg, g.len() as int, fuel as nat) is Some {
                                    lemma_chain_prefix(g, *cfg, g.len() as int, fuel as nat, i as int);
                                    lemma_node_prefix(g, *cfg, i as int, items@, fuel as nat, k + 1);
                                }
                                if chain_inc_free(g) {
                                    assert(items_inc_free(g[i as int].root.content@));
                                    assert(item_inc_free(items@[k as int]));
                                }
                            }
                            return Err(e);
                        },
                    }
                } else {
                    proof { assert(shapes_of(before) + Seq::<Shape>::empty() =~= shapes_of(before)); }
                }
                k = k + 1;
            }
            proof { assert(items@.subrange(0, items@.len() as int) =~= items@); }
            let ghost prev = out@;
            let ghost node_part = part_out@;
            out.append(&mut part_out);
            proof { lemma_shapes_append(prev, node_part); }
            let blocks = get_blocks(items);
            let ghost entries = block_entries(items@);
            let ghost done0 = done@;
            let mut t: usize = 0;
            while t < blocks.len()
                invariant
                    t <= blocks@.len(),
                    blocks@.len() == entries.len(),
                    forall|u: int| 0 <= u < blocks@.len() ==> *#[trigger] blocks@[u] == entries[u],
                    done@.len() == done0.len() + t,
                    forall|u: int| 0 <= u < done0.len() ==> #[trigger] done@[u] == done0[u],
                    forall|u: int| 0 <= u < t ==> (#[trigger] done@[done0.len() + u])@ == entries[u].name@,
                decreases blocks@.len() - t,
            {
                done.push(blocks[t].name.clone());
                t = t + 1;
            }
            proof {
                let i1 = i + 1;
                assert forall|n: Seq<char>| (exists|u: int| 0 <= u < done@.len() && (#[trigger] done@[u])@ == n)
                    <==> #[trigger] registered(g, i1, n) by {
                    lemma_find_some_iff(entries, n);
                    if exists|u: int| 0 <= u < done@.len() && (#[trigger] done@[u])@ == n {
                        let u = choose|u: int| 0 <= u < done@.len() && (#[trigger] done@[u])@ == n;
                        if u < done0.len() {
                            assert(done0[u]@ == n);
                            assert(registered(g, i as int, n));
                            let k0 = choose|k0: int| 0 <= k0 < i && defines(#[trigger] g[k0], n);
                            assert(defines(g[k0], n));
                        } else {
                            let w = u - done0.len();
                            assert(done@[done0.len() + w]@ == entries[w].name@);
                            assert(defines(g[i as int], n));
                        }
                    }
                    if registered(g, i1, n) {
                        let k0 = choose|k0: int| 0 <= k0 < i1 && defines(#[trigger] g[k0], n);
                        if k0 < i {
                            assert(registered(g, i as int, n));
                            let u = choose|u: int| 0 <= u < done0.len() && (#[trigger] done0[u])@ == n;
                            assert(done@[u] == done0[u]);
                        } else {
                            let w = choose|w: int| 0 <= w < entries.len() && (#[trigger] entries[w]).name@ == n;
                            assert(done@[done0.len() + w]@ == entries[w].name@);
                        }
                    }
                }
            }
            i = i + 1;
        }
        Ok(out)
    }

    /// Resolve the block `name` alone: its first definition in the chain,
    /// overridden as in `expand`.
    pub fn expand_named_block(&self, cfg: &Config, sources: &Sources, name: &str, fuel: usize) -> (r: Result<Vec<Resolved>, Diagnostic>)
        requires
            cfg.delimiters.usable(),
        ensures
            r matches Ok(v) ==> first_block_plan(self.nodes@, *cfg, name@, fuel as nat, shapes_of(v@)),
            ((exists|i: int| 0 <= i < self.nodes@.len() && defines(#[trigger] self.nodes@[i], name@)
                && (forall|k: int| 0 <= k < i ==> !defines(#[trigger] self.nodes@[k], name@))
                && block_plan(self.nodes@, *cfg, i, name@, fuel as nat) is Some) && chain_inc_free(self.nodes@)) ==> r is Ok,
    {
        let mut i: usize = 0;
        while i < self.nodes.len()
            invariant
                cfg.delimiters.usable(),
                i <= self.nodes@.len(),
                forall|k: int| 0 <= k < i ==> !defines(#[trigger] self.nodes@[k], name@),
            decreases self.nodes@.len() - i,
        {
            if find_block(&self.nodes[i].root.content, name).is_some() {
                let key = String::from_str(name);
                let res = self.expand_block(cfg, sources, i, &key, fuel);
                proof {
                    if res is Ok {
                        let v = res->Ok_0;
                        assert(defines(self.nodes@[i as int], name@));
                        assert(first_block_plan(self.nodes@, *cfg, name@, fuel as nat, shapes_of(v@)));
                    }
                }
                return res;
            }
            i = i + 1;
        }
        let mut msg = String::from_str("no block named ");
        msg.append(name);
        Err(Diagnostic::new(msg.as_str()))
    }

    /// Resolve the items `items` of the template at `i`.
    fn expand_items(&self, cfg: &Config, sources: &Sources, i: usize, items: &Vec<OwnedItem>, fuel: usize) -> (r: Result<Vec<Resolved>, Diagnostic>)
        requires
            cfg.delimiters.usable(),
            i < self.nodes@.len(),
        ensures
            r matches Ok(v) ==> items_plan(self.nodes@, *cfg, i as int, items@, fuel as nat) == Some(shapes_of(v@)),
            (items_plan(self.nodes@, *cfg, i as int, items@, fuel as nat) is Some && chain_inc_free(self.nodes@)
                && items_inc_free(items@)) ==> r is Ok,
        decreases fuel, 1int,
    {
        let mut out: Vec<Resolved> = Vec::new();
        let mut k: usize = 0;
        proof { assert(items@.subrange(0, 0) =~= Seq::<OwnedItem>::empty()); }
        while k < items.len()
            invariant
                cfg.delimiters.usable(),
                i < self.nodes@.len(),
                k <= items@.len(),
                items_plan(self.nodes@, *cfg, i as int, items@.subrange(0, k as int), fuel as nat) == Some(shapes_of(out@)),
            decreases items@.len() - k,
        {
            match self.expand_item(cfg, sources, i, &items[k], fuel) {
                Ok(mut part) => {
                    let ghost before = out@;
                    let ghost got = part@;
                    out.append(&mut part);
                    proof {
                        lemma_shapes_append(before, got);
                        assert(items@.subrange(0, k + 1).subrange(0, k as int) =~= items@.subrange(0, k as int));
                        assert(items@.subrange(0, k + 1)[k as int] == items@[k as int]);
                    }
                },
                Err(e) => {
                    proof {
                        if items_plan(self.nodes@, *cfg, i as int, items@, fuel as nat) is Some {
                            lemma_items_prefix(self.nodes@, *cfg, i as int, items@, fuel as nat, k as int);
                        }
                    }
                    return Err(e);
                },
            }
            k = k + 1;
        }
        proof { assert(items@.subrange(0, items@.len() as int) =~= items@); }
        Ok(out)
    }

    /// Resolve one item of the template at `i`: literal text under the
    /// template's trim policy, a block by its deepest override, host
    /// expressions with the template's escaper, an include by resolving the
    /// included template on its own.
    fn expand_item(&self, cfg: &Config, sources: &Sources, i: usize, item: &OwnedItem, fuel: usize) -> (r: Result<Vec<Resolved>, Diagnostic>)
        requires
            cfg.delimiters.usable(),
            i < self.nodes@.len(),
        ensures
            r matches Ok(v) ==> match *item {
                OwnedItem::Content(c) => if trimmed(c@).len() == 0 {
                    v@.len() == 0
                } else {
                    v@.len() == 1 && (v@[0] matches Resolved::Text(t)
                        && t@ == if node_trim(*cfg, self.nodes@[i as int]) { trimmed(c@) } else { c@ })
                },
                OwnedItem::Expr(OwnedExpr::Expr(e)) => v@.len() == 1 && (v@[0] matches Resolved::Expr { code, escaper }
                    && code@ == e@ && escaper@ == node_escaper(*cfg, self.nodes@[i as int])),
                OwnedItem::Expr(OwnedExpr::Stmt(e)) => v@.len() == 1 && (v@[0] matches Resolved::Stmt(s) && s@ == e@),
                OwnedItem::Expr(OwnedExpr::Extends(_)) => v@.len() == 0,
                OwnedItem::Expr(OwnedExpr::SuperCall) => v@.len() == 0,
                OwnedItem::Expr(OwnedExpr::MacroCall { name, args }) => v@.len() == 1
                    && (v@[0] matches Resolved::MacroCall { name: n, args: a } && n@ == name@ && a@ == args@),
                OwnedItem::Expr(OwnedExpr::Include { args, .. }) => v@.len() == 1
                    && (v@[0] matches Resolved::Include { args: a, .. } && a@ == args@),
                OwnedItem::For(x) => v@.len() == 1
                    && (v@[0] matches Resolved::For { pat, expr, .. } && pat@ == x.pat@ && expr@ == x.expr@),
                OwnedItem::If(x) => v@.len() == 1 && (v@[0] matches Resolved::If { cond, .. } && cond@ == x.cond@),
                OwnedItem::Match(x) => v@.len() == 1 && (v@[0] matches Resolved::Match { expr, arms }
                    && expr@ == x.expr@ && arms@.len() == x.arms@.len()
                    && forall|k: int| 0 <= k < arms@.len() ==> (#[trigger] arms@[k]).pat@ == x.arms@[k].pat@),
                OwnedItem::Macro(x) => v@.len() == 1 && (v@[0] matches Resolved::MacroDef { name, args, .. }
                    && name@ == x.name@ && args@ == x.args@),
                OwnedItem::Block(_) => true,
            },
            r matches Ok(v) ==> item_plan(self.nodes@, *cfg, i as int, *item, fuel as nat) == Some(shapes_of(v@)),
            match *item {
                OwnedItem::Expr(OwnedExpr::Include { reference, .. }) => fuel > 0 ==> include_agrees(r, sources.entries(), *cfg,
                    reference, opt_view(self.nodes@[i as int].escape_override), self.nodes@[i as int].trim_override, (fuel - 1) as nat),
                _ => true,
            },
            (item_plan(self.nodes@, *cfg, i as int, *item, fuel as nat) is Some && chain_inc_free(self.nodes@)
                && item_inc_free(*item)) ==> r is Ok,
        decreases fuel, 0int,
    {
        if fuel == 0 {
            return Err(Diagnostic::new("template nesting is too deep"));
        }
        let f = fuel - 1;
        match item {
            OwnedItem::Content(c) => match content_text(c.as_str(), self.trim_for(cfg, i)) {
                Some(t) => {
                    let v = vec![Resolved::Text(t)];
                    proof { lemma_shapes_one(v@[0]); assert(v@ =~= seq![v@[0]]); }
                    Ok(v)
                },
                None => Ok(Vec::new()),
            },
            OwnedItem::Block(b) => self.expand_block(cfg, sources, i, &b.name, f),
            OwnedItem::For(x) => match self.expand_items(cfg, sources, i, &x.content, f) {
                Ok(content) => {
                    let v = vec![Resolved::For { pat: x.pat.clone(), expr: x.expr.clone(), content }];
                    proof { lemma_shapes_one(v@[0]); assert(v@ =~= seq![v@[0]]); }
                    Ok(v)
                },
                Err(e) => Err(e),
            },
            OwnedItem::If(x) => {
                let content = match self.expand_items(cfg, sources, i, &x.content, f) {
                    Ok(c) => c,
                    Err(e) => return Err(e),
                };
                let branch = match self.expand_branch(cfg, sources, i, &x.branch, f) {
                    Ok(b) => b,
                    Err(e) => return Err(e),
                };
                let v = vec![Resolved::If { cond: x.cond.clone(), content, branch }];
                proof { lemma_shapes_one(v@[0]); assert(v@ =~= seq![v@[0]]); }
                Ok(v)
            },
            OwnedItem::Match(x) => {
                let mut arms: Vec<ResolvedArm> = Vec::new();
                let mut k: usize = 0;
                while k < x.arms.len()
                    invariant
                        cfg.delimiters.usable(),
                        i < self.nodes@.len(),
                        k <= x.arms@.len(),
                        f == fuel - 1,
                        arms@.len() == k,
                        forall|t: int| 0 <= t < k ==> (#[trigger] arms@[t]).pat@ == x.arms@[t].pat@,
                        arms_plan(self.nodes@, *cfg, i as int, x.arms@.subrange(0, k as int), f as nat) == Some(arm_shapes(arms@)),
                        *item == OwnedItem::Match(*x),
                    decreases x.arms@.len() - k,
                {
                    let arm = &x.arms[k];
                    let content = match self.expand_items(cfg, sources, i, &arm.content, f) {
                        Ok(c) => c,
                        Err(e) => {
                            proof {
                                if arms_plan(self.nodes@, *cfg, i as int, x.arms@, f as nat) is Some {
                                    lemma_arms_prefix(self.nodes@, *cfg, i as int, x.arms@, f as nat, k as int);
                                }
                                if item_inc_free(*item) {
                                    assert(items_inc_free(x.arms@[k as int].content@));
                                }
                            }
                            return Err(e);
                        },
                    };
                    let ra = ResolvedArm { pat: arm.pat.clone(), guard: clone_opt(&arm.guard), content };
                    let ghost before = arms@;
                    arms.push(ra);
                    proof {
                        lemma_arm_shapes_push(before, arms@[k as int]);
                        assert(arms@ =~= before.push(arms@[k as int]));
                        assert(x.arms@.subrange(0, k + 1).subrange(0, k as int) =~= x.arms@.subrange(0, k as int));
                        assert(x.arms@.subrange(0, k + 1)[k as int] == x.arms@[k as int]);
                        assert(opt_view(arms@[k as int].guard) == opt_view(x.arms@[k as int].guard));
                    }
                    k = k + 1;
                }
                proof { assert(x.arms@.subrange(0, x.arms@.len() as int) =~= x.arms@); }
                let v = vec![Resolved::Match { expr: x.expr.clone(), arms }];
                proof { lemma_shapes_one(v@[0]); assert(v@ =~= seq![v@[0]]); }
                Ok(v)
            },
            OwnedItem::Macro(x) => match self.expand_items(cfg, sources, i, &x.content, f) {
                Ok(content) => {
                    let v = vec![Resolved::MacroDef { name: x.name.clone(), args: x.args.clone(), content }];
                    proof { lemma_shapes_one(v@[0]); assert(v@ =~= seq![v@[0]]); }
                    Ok(v)
                },
                Err(e) => Err(e),
            },
            OwnedItem::Expr(OwnedExpr::Extends(_)) => Ok(Vec::new()),
            OwnedItem::Expr(OwnedExpr::SuperCall) => Ok(Vec::new()),
            OwnedItem::Expr(OwnedExpr::Include { reference, args }) => {
                let node = &self.nodes[i];
                let attrs = TemplateAttrs {
                    source: TemplateSource::File(reference.clone()),
                    escape: clone_opt(&node.escape_override),
                    trim: node.trim_override,
                    block: None,
                };
                let g = match Graph::load(cfg, sources, &attrs, f) {
                    Ok(g) => g,
                    Err(e) => return Err(e),
                };
                match g.expand(cfg, sources, f) {
                    Ok(content) => {
                        let v = vec![Resolved::Include { args: args.clone(), content }];
                        proof {
                            lemma_shapes_one(v@[0]);
                            assert(v@ =~= seq![v@[0]]);
                            assert(chain_loaded(g.nodes@, sources.entries(), cfg.delimiters, attrs.source));
                            assert(attrs.source == TemplateSource::File(*reference));
                        }
                        Ok(v)
                    },
                    Err(e) => Err(e),
                }
            },
            OwnedItem::Expr(OwnedExpr::MacroCall { name, args }) => {
                let v = vec![Resolved::MacroCall { name: name.clone(), args: args.clone() }];
                proof { lemma_shapes_one(v@[0]); assert(v@ =~= seq![v@[0]]); }
                Ok(v)
            },
            OwnedItem::Expr(OwnedExpr::Stmt(s)) => {
                let v = vec![Resolved::Stmt(s.clone())];
                proof { lemma_shapes_one(v@[0]); assert(v@ =~= seq![v@[0]]); }
                Ok(v)
            },
            OwnedItem::Expr(OwnedExpr::Expr(e)) => {
                let v = vec![Resolved::Expr { code: e.clone(), escaper: self.escaper_for(cfg, i) }];
                proof { lemma_shapes_one(v@[0]); assert(v@ =~= seq![v@[0]]); }
                Ok(v)
            },
        }
    }

    /// Resolve the branch `b` of an `if` of the template at `i`.
    fn expand_branch(&self, cfg: &Config, sources: &Sources, i: usize, b: &OwnedBranch, fuel: usize) -> (r: Result<ResolvedBranch, Diagnostic>)
        requires
            cfg.delimiters.usable(),
            i < self.nodes@.len(),
        ensures
            r matches Ok(v) ==> branch_plan(self.nodes@, *cfg, i as int, *b, fuel as nat) == Some(branch_shape(v)),
            (branch_plan(self.nodes@, *cfg, i as int, *b, fuel as nat) is Some && chain_inc_free(self.nodes@)
                && branch_inc_free(*b)) ==> r is Ok,
        decreases fuel, 0int,
    {
        if fuel == 0 {
            return Err(Diagnostic::new("template nesting is too deep"));
        }
        let f = fuel - 1;
        match b {
            OwnedBranch::ElseIf { cond, content, branch } => {
                let content = match self.expand_items(cfg, sources, i, content, f) {
                    Ok(c) => c,
                    Err(e) => return Err(e),
                };
                match self.expand_branch(cfg, sources, i, branch, f) {
                    Ok(next) => Ok(ResolvedBranch::ElseIf { cond: cond.clone(), content, branch: Box::new(next) }),
                    Err(e) => Err(e),
                }
            },
            OwnedBranch::Else { content } => match self.expand_items(cfg, sources, i, content, f) {
                Ok(c) => Ok(ResolvedBranch::Else { content: c }),
                Err(e) => Err(e),
            },
            OwnedBranch::End => Ok(ResolvedBranch::End),
        }
    }

    /// The version of the block `name` that a block met in the template at
    /// `i` expands to: that of the last template from `i` on that defines
    /// it, with its index.
    pub fn block_version(&self, i: usize, name: &str) -> (r: Option<(usize, &OwnedBlock)>)
        requires
            i < self.nodes@.len(),
        ensures
            match r {
                Some((d, b)) => {
                    &&& i <= d < self.nodes@.len()
                    &&& forall|k: int| d < k < self.nodes@.len() ==> !defines(#[trigger] self.nodes@[k], name@)
                    &&& registry_find(block_entries(self.nodes@[d as int].root.content@), name@) == Some(*b)
                },
                None => forall|k: int| i <= k < self.nodes@.len() ==> !defines(#[trigger] self.nodes@[k], name@),
            },
    {
        let d = self.deepest_child(i, name);
        match find_block(&self.nodes[d].root.content, name) {
            Some(b) => Some((d, b)),
            None => None,
        }
    }

    /// The version of the block `name` that `super()` inside the version of
    /// the template at `j` expands to: that of the template just before `j`,
    /// where it defines the block.
    pub fn super_version(&self, j: usize, name: &str) -> (r: Option<&OwnedBlock>)
        requires
            j < self.nodes@.len(),
        ensures
            match r {
                Some(b) => j > 0 && registry_find(block_entries(self.nodes@[j - 1].root.content@), name@) == Some(*b),
                None => j == 0 || !defines(self.nodes@[j - 1], name@),
            },
    {
        if j == 0 {
            return None;
        }
        find_block(&self.nodes[j - 1].root.content, name)
    }

    /// Resolve the block `name` met in the template at `i`: the version of
    /// the deepest template that defines it.
    fn expand_block(&self, cfg: &Config, sources: &Sources, i: usize, name: &String, fuel: usize) -> (r: Result<Vec<Resolved>, Diagnostic>)
        requires
            cfg.delimiters.usable(),
            i < self.nodes@.len(),
        ensures
            r matches Ok(v) ==> block_plan(self.nodes@, *cfg, i as int, name@, fuel as nat) == Some(shapes_of(v@)),
            (block_plan(self.nodes@, *cfg, i as int, name@, fuel as nat) is Some && chain_inc_free(self.nodes@)) ==> r is Ok,
        decreases fuel, 0int,
    {
        if fuel == 0 {
            return Err(Diagnostic::new("template nesting is too deep"));
        }
        match self.block_version(i, name.as_str()) {
            Some((d, b)) => {
                proof {
                    lemma_last_defining(self.nodes@, i as int, name@, self.nodes@.len() as int, d as int);
                    if chain_inc_free(self.nodes@) {
                        assert(items_inc_free(self.nodes@[d as int].root.content@));
                        lemma_found_free(self.nodes@[d as int].root.content@, name@);
                    }
                }
                self.expand_block_inner(cfg, sources, d, b, fuel - 1)
            },
            None => {
                proof {
                    lemma_last_defining(self.nodes@, i as int, name@, self.nodes@.len() as int, -1);
                    assert(shapes_of(Seq::<Resolved>::empty()) =~= Seq::<Shape>::empty());
                }
                Ok(Vec::new())
            },
        }
    }

    /// Resolve the body of `block` as the template at `j` defines it; each
    /// `super()` in it becomes the version of the template just before `j`,
    /// or nothing where that template does not define the block.
    fn expand_block_inner(&self, cfg: &Config, sources: &Sources, j: usize, block: &OwnedBlock, fuel: usize) -> (r: Result<Vec<Resolved>, Diagnostic>)
        requires
            cfg.delimiters.usable(),
            j < self.nodes@.len(),
        ensures
            r matches Ok(v) ==> body_plan(self.nodes@, *cfg, j as int, *block, fuel as nat) == Some(shapes_of(v@)),
            (body_plan(self.nodes@, *cfg, j as int, *block, fuel as nat) is Some && chain_inc_free(self.nodes@)
                && items_inc_free(block.content@)) ==> r is Ok,
        decreases fuel, 0int,
    {
        if fuel == 0 {
            return Err(Diagnostic::new("template nesting is too deep"));
        }
        let f = fuel - 1;
        let mut out: Vec<Resolved> = Vec::new();
        let mut k: usize = 0;
        proof {
            assert(block.content@.subrange(0, 0) =~= Seq::<OwnedItem>::empty());
            assert(shapes_of(out@) =~= Seq::<Shape>::empty());
        }
        while k < block.content.len()
            invariant
                cfg.delimiters.usable(),
                j < self.nodes@.len(),
                k <= block.content@.len(),
                f == fuel - 1,
                body_items_plan(self.nodes@, *cfg, j as int, block.name@, block.content@.subrange(0, k as int), f as nat)
                    == Some(shapes_of(out@)),
            decreases block.content@.len() - k,
        {
            let ghost before = out@;
            proof {
                assert(block.content@.subrange(0, k + 1).subrange(0, k as int) =~= block.content@.subrange(0, k as int));
                assert(block.content@.subrange(0, k + 1)[k as int] == block.content@[k as int]);
                if body_plan(self.nodes@, *cfg, j as int, *block, fuel as nat) is Some {
                    lemma_body_prefix(self.nodes@, *cfg, j as int, block.name@, block.content@, f as nat, k as int);
                }
                if items_inc_free(block.content@) {
                    assert(item_inc_free(block.content@[k as int]));
                }
            }
            match &block.content[k] {
                OwnedItem::Expr(OwnedExpr::SuperCall) => {
                    match self.super_version(j, block.name.as_str()) {
                        Some(pb) => {
                            proof {
                                if chain_inc_free(self.nodes@) {
                                    assert(items_inc_free(self.nodes@[j - 1].root.content@));
                                    lemma_found_free(self.nodes@[j - 1].root.content@, block.name@);
                                }
                            }
                            match self.expand_block_inner(cfg, sources, j - 1, pb, f) {
                                Ok(mut part) => {
                                    let ghost got = part@;
                                    out.append(&mut part);
                                    proof { lemma_shapes_append(before, got); }
                                },
                                Err(e) => return Err(e),
                            }
                        },
                        None => {
                            proof {
                                assert(shapes_of(before) + Seq::<Shape>::empty() =~= shapes_of(before));
                            }
                        },
                    }
                },
                other => match self.expand_item(cfg, sources, j, other, f) {
                    Ok(mut part) => {
                        let ghost got = part@;
                        out.append(&mut part);
                        proof { lemma_shapes_append(before, got); }
                    },
                    Err(e) => return Err(e),
                },
            }
            k = k + 1;
        }
        proof { assert(block.content@.subrange(0, block.content@.len() as int) =~= block.content@); }
        Ok(out)
    }
}

/// `v` is what resolving the block `name` of the chain `g` yields: the
/// block met in the first template that defines it.
pub open spec fn first_block_plan(g: Seq<TemplateNode>, cfg: Config, name: Seq<char>, fuel: nat, v: Seq<Shape>) -> bool {
    exists|i: int| 0 <= i < g.len() && defines(#[trigger] g[i], name)
        && (forall|k: int| 0 <= k < i ==> !defines(#[trigger] g[k], name))
        && block_plan(g, cfg, i, name, fuel) == Some(v)
}

/// `g` is a chain that `load` builds for `s` from `sources`: well formed,
/// ending at the requested template, each node holding the text filed under
/// its reference.
pub open spec fn chain_loaded(g: Seq<TemplateNode>, sources: Seq<(String, String)>, d: Delims, s: TemplateSource) -> bool {
    &&& chain_wf(g)
    &&& node_path(g.last()) == source_path(s)
    &&& g.last().text@ == source_text(sources, s)->0
    &&& forall|i: int| 0 <= i < g.len() ==> node_sourced(#[trigger] g[i], sources, d)
}

/// Every node of `g` carries the escaper override `esc` and the trim
/// override `trim`.
pub open spec fn overridden(g: Seq<TemplateNode>, esc: Option<Seq<char>>, trim: Option<bool>) -> bool {
    forall|i: int| 0 <= i < g.len() ==> opt_view(#[trigger] g[i].escape_override) == esc && g[i].trim_override == trim
}

/// What resolving an include of `reference` gives, with fuel `f` and the
/// overrides `esc` and `trim`: the plan of a chain that `load` builds for
/// the reference; nothing but a failure where that chain does not load.
pub open spec fn include_agrees(r: Result<Vec<Resolved>, Diagnostic>, sources: Seq<(String, String)>, cfg: Config,
    reference: String, esc: Option<Seq<char>>, trim: Option<bool>, f: nat) -> bool {
    let src = TemplateSource::File(reference);
    &&& r matches Ok(v) ==> (v@.len() == 1 && (v@[0] matches Resolved::Include { content, .. }
        && exists|g: Seq<TemplateNode>| #[trigger] chain_loaded(g, sources, cfg.delimiters, src) && overridden(g, esc, trim)
            && chain_plan(g, cfg, g.len() as int, f) == Some(shapes_of(content@))))
    &&& !(load_end(sources, cfg.delimiters, src, f) is Loaded) ==> r is Err
}

/// Resolving `attrs` over the chain `g` succeeds in the model.
pub open spec fn plan_ok(g: Seq<TemplateNode>, cfg: Config, attrs: TemplateAttrs, fuel: nat) -> bool {
    match attrs.block {
        Some(name) => exists|i: int| 0 <= i < g.len() && defines(#[trigger] g[i], name@)
            && (forall|k: int| 0 <= k < i ==> !defines(#[trigger] g[k], name@))
            && block_plan(g, cfg, i, name@, fuel) is Some,
        None => chain_plan(g, cfg, g.len() as int, fuel) is Some,
    }
}

/// `v` is what resolving `attrs` yields over a chain `g` that `load` gives:
/// the whole chain, or the block `attrs.block` alone.
pub open spec fn resolves_to(g: Seq<TemplateNode>, cfg: Config, attrs: TemplateAttrs, fuel: nat, v: Seq<Shape>) -> bool {
    &&& chain_wf(g)
    &&& node_path(g.last()) == source_path(attrs.source)
    &&& match attrs.block {
        Some(name) => first_block_plan(g, cfg, name@, fuel, v),
        None => chain_plan(g, cfg, g.len() as int, fuel) == Some(v),
    }
}

/// Load the template that `attrs` names with its ancestors, and resolve it:
/// the whole chain, or only the block `attrs.block` where one is named.
/// Chains and nesting deeper than `fuel` fail.
pub fn resolve(cfg: &Config, sources: &Sources, attrs: &TemplateAttrs, fuel: usize) -> (r: Result<Vec<Resolved>, Diagnostic>)
    requires
        cfg.delimiters.usable(),
    ensures
        (attrs.source matches TemplateSource::File(p) && lookup(sources.entries(), p@) is None)
            ==> (r matches Err(e) && e.message@ == "unable to read template "@ + source_path(attrs.source)->0),
        r matches Ok(v) ==> exists|g: Seq<TemplateNode>| chain_loaded(g, sources.entries(), cfg.delimiters, attrs.source)
            && resolves_to(g, *cfg, *attrs, fuel as nat, shapes_of(v@)),
        match load_end(sources.entries(), cfg.delimiters, attrs.source, fuel as nat) {
            ChainEnd::Cycle(m) => r matches Err(e) && e.message@ == "dependency cycle detected: "@ + m,
            ChainEnd::Missing(p) => r matches Err(e) && e.message@ == "unable to read template "@ + p,
            ChainEnd::TooLong => r matches Err(e) && e.message@ == "template inheritance chain is too long"@,
            ChainEnd::Unparsed => r is Err,
            ChainEnd::Loaded => (forall|g: Seq<TemplateNode>| #[trigger] chain_loaded(g, sources.entries(), cfg.delimiters, attrs.source)
                ==> plan_ok(g, *cfg, *attrs, fuel as nat) && chain_inc_free(g)) ==> r is Ok,
        },
{
    let g = match Graph::load(cfg, sources, attrs, fuel) {
        Ok(g) => g,
        Err(e) => return Err(e),
    };
    let res = match &attrs.block {
        Some(name) => g.expand_named_block(cfg, sources, name.as_str(), fuel),
        None => g.expand(cfg, sources, fuel),
    };
    proof {
        assert(chain_loaded(g.nodes@, sources.entries(), cfg.delimiters, attrs.source));
        if res is Ok {
            let v = res->Ok_0;
            assert(resolves_to(g.nodes@, *cfg, *attrs, fuel as nat, shapes_of(v@)));
        }
    }
    res
}

} // verus!
