use crate::error::Error;
use crate::text::chars_of;
use vstd::prelude::*;

verus! {

/// What rendering `template` against `context` gives, or `None` where the
/// template does not parse or names a key that the context lacks.
pub uninterp spec fn rendered(template: Seq<char>, context: Seq<(Seq<char>, Seq<char>)>) -> Option<Seq<char>>;

/// Whether `text` is a valid glob pattern.
pub uninterp spec fn glob_parses(text: Seq<char>) -> bool;

/// Whether the glob pattern written `text` matches `name`.
pub uninterp spec fn glob_matches(text: Seq<char>, name: Seq<char>) -> bool;

#[verifier::external_type_specification]
#[verifier::external_body]
pub struct ExPattern(glob::Pattern);

pub open spec fn context_view(context: Seq<(String, String)>) -> Seq<(Seq<char>, Seq<char>)> {
    context.map_values(|e: (String, String)| (e.0@, e.1@))
}

/// Whether `t` holds the character `a` directly followed by `b`.
pub open spec fn has_pair(t: Seq<char>, a: char, b: char) -> bool {
    exists|i: int| 0 <= i < t.len() - 1 && #[trigger] t[i] == a && t[i + 1] == b
}

/// Whether a name template keeps to plain text and value tags (`{name}`):
/// no block tag (`{{`), no comment (`{#`), and no backslash at the end. The
/// template engine can panic while parsing the forms left out.
pub open spec fn template_ok(t: Seq<char>) -> bool {
    !has_pair(t, '{', '{') && !has_pair(t, '{', '#') && !(t.len() > 0 && t.last() == '\\')
}

/// Every template keeps to the accepted forms.
pub open spec fn templates_ok(ts: Seq<String>) -> bool {
    forall|i: int| 0 <= i < ts.len() ==> template_ok(#[trigger] ts[i]@)
}

/// Whether `t` keeps to the accepted template forms.
pub fn check_template(t: &str) -> (r: bool)
    ensures
        r == template_ok(t@),
{
    let cs = chars_of(t);
    let n = cs.len();
    if n > 0 && cs[n - 1] == '\\' {
        return false;
    }
    let mut i: usize = 0;
    while i < n && i + 1 < n
        invariant
            i <= n,
            n == cs.len(),
            cs@ == t@,
            forall|j: int| 0 <= j < i && j < n - 1 ==> !((#[trigger] cs@[j] == '{') && (cs@[j + 1] == '{' || cs@[j + 1] == '#')),
        decreases n - i,
    {
        if cs[i] == '{' && (cs[i + 1] == '{' || cs[i + 1] == '#') {
            return false;
        }
        i = i + 1;
    }
    true
}

/// Relies on `tinytemplate::TinyTemplate::add_template` and `render`: the
/// template is parsed and filled from the context, a function of the two.
/// Parsing panics on some block and comment tags and on a trailing
/// backslash, hence the precondition.
#[verifier::external_body]
fn render(template: &str, context: &Vec<(String, String)>) -> (r: Option<String>)
    requires
        template_ok(template@),
    ensures
        r is Some <==> rendered(template@, context_view(context@)) is Some,
        r is Some ==> r->0@ == rendered(template@, context_view(context@))->0,
{
    let ctx: std::collections::BTreeMap<&str, &str> =
        context.iter().map(|(k, v)| (k.as_str(), v.as_str())).collect();
    let mut templates = tinytemplate::TinyTemplate::new();
    match templates.add_template("name", template) {
        Ok(()) => templates.render("name", &ctx).ok(),
        Err(_) => None,
    }
}

/// Relies on `glob::Pattern::new`: whether a text parses depends on the text
/// alone.
#[verifier::external_body]
fn parse_glob(text: &str) -> (r: Option<glob::Pattern>)
    ensures
        r is Some <==> glob_parses(text@),
{
    glob::Pattern::new(text).ok()
}

/// A glob pattern together with the text it was parsed from.
#[derive(Debug)]
pub struct CompiledPattern {
    text: String,
    glob: glob::Pattern,
}

/// Relies on `glob::Pattern::matches`: `p.glob` was parsed from `p.text`
/// (the only constructor is `CompiledPattern::new`), and the answer depends
/// on the pattern text and the name alone.
#[verifier::external_body]
fn glob_match(p: &CompiledPattern, name: &str) -> (r: bool)
    ensures
        r == glob_matches(p.text(), name@),
{
    p.glob.matches(name)
}

impl CompiledPattern {
    /// The text the pattern was parsed from.
    pub closed spec fn text(&self) -> Seq<char> {
        self.text@
    }

    /// Parses `text`; `None` where it is not a valid glob pattern.
    pub fn new(text: String) -> (r: Option<CompiledPattern>)
        ensures
            r is Some <==> glob_parses(text@),
            r is Some ==> r->0.text() == text@,
    {
        match parse_glob(text.as_str()) {
            Some(glob) => Some(CompiledPattern { text, glob }),
            None => None,
        }
    }

    /// The text the pattern was parsed from.
    pub fn as_str(&self) -> (r: &str)
        ensures
            r@ == self.text(),
    {
        self.text.as_str()
    }

    /// Whether the pattern matches the file name `name`.
    pub fn matches(&self, name: &str) -> (r: bool)
        ensures
            r == glob_matches(self.text(), name@),
    {
        glob_match(self, name)
    }
}

/// The key under which each extension is handed to the templates.
pub open spec fn ext_key() -> Seq<char> {
    seq!['e', 'x', 't']
}

/// The context for one extension: `context`, then `ext` bound to it.
pub open spec fn context_for(context: Seq<(String, String)>, ext: Seq<char>) -> Seq<(Seq<char>, Seq<char>)> {
    context_view(context).push((ext_key(), ext))
}

/// The rendered texts of one template, one per extension, in order.
pub open spec fn row(template: Seq<char>, context: Seq<(String, String)>, exts: Seq<String>) -> Seq<Option<Seq<char>>> {
    exts.map_values(|e: String| rendered(template, context_for(context, e@)))
}

/// The rendered texts of all templates, template by template, each with
/// every extension in turn.
pub open spec fn all_rendered(templates: Seq<String>, context: Seq<(String, String)>, exts: Seq<String>) -> Seq<Option<Seq<char>>>
    decreases templates.len(),
{
    if templates.len() == 0 {
        seq![]
    } else {
        all_rendered(templates.drop_last(), context, exts) + row(templates.last()@, context, exts)
    }
}

/// Every rendered text exists and is a valid glob pattern.
pub open spec fn all_valid(texts: Seq<Option<Seq<char>>>) -> bool {
    forall|i: int| 0 <= i < texts.len() ==> (#[trigger] texts[i] is Some && glob_parses(texts[i]->0))
}

pub open spec fn texts_of(ps: Seq<CompiledPattern>) -> Seq<Seq<char>> {
    ps.map_values(|p: CompiledPattern| p.text())
}

fn copy_context(context: &Vec<(String, String)>) -> (r: Vec<(String, String)>)
    ensures
        r@ == context@,
{
    let mut r: Vec<(String, String)> = Vec::new();
    let mut i: usize = 0;
    while i < context.len()
        invariant
            i <= context.len(),
            r@ == context@.take(i as int),
        decreases context.len() - i,
    {
        let k = context[i].0.clone();
        let v = context[i].1.clone();
        r.push((k, v));
        proof {
            assert(r@ =~= context@.take(i + 1));
        }
        i = i + 1;
    }
    proof {
        assert(context@.take(i as int) =~= context@);
    }
    r
}

proof fn lemma_prefix(ts: Seq<String>, ctx: Seq<(String, String)>, es: Seq<String>, a: int)
    requires
        0 <= a <= ts.len(),
    ensures
        all_rendered(ts.take(a), ctx, es).len() <= all_rendered(ts, ctx, es).len(),
        all_rendered(ts.take(a), ctx, es) == all_rendered(ts, ctx, es).take(all_rendered(ts.take(a), ctx, es).len() as int),
    decreases ts.len(),
{
    if a == ts.len() {
        assert(ts.take(a) =~= ts);
        assert(all_rendered(ts, ctx, es).take(all_rendered(ts, ctx, es).len() as int) =~= all_rendered(ts, ctx, es));
    } else {
        assert(ts.take(a) =~= ts.drop_last().take(a));
        lemma_prefix(ts.drop_last(), ctx, es, a);
        let whole = all_rendered(ts, ctx, es);
        let front = all_rendered(ts.drop_last(), ctx, es);
        assert(whole == front + row(ts.last()@, ctx, es));
        let n = all_rendered(ts.take(a), ctx, es).len() as int;
        assert(whole.take(n) =~= front.take(n));
    }
}

proof fn lemma_one_more(ts: Seq<String>, ctx: Seq<(String, String)>, es: Seq<String>, i: int)
    requires
        0 <= i < ts.len(),
    ensures
        all_rendered(ts.take(i + 1), ctx, es) == all_rendered(ts.take(i), ctx, es) + row(ts[i]@, ctx, es),
{
    assert(ts.take(i + 1).drop_last() =~= ts.take(i));
    assert(ts.take(i + 1).last() == ts[i]);
}

proof fn lemma_not_valid(ts: Seq<String>, ctx: Seq<(String, String)>, es: Seq<String>, i: int, j: int)
    requires
        0 <= i < ts.len(),
        0 <= j < es.len(),
        !(row(ts[i]@, ctx, es)[j] is Some && glob_parses(row(ts[i]@, ctx, es)[j]->0)),
    ensures
        !all_valid(all_rendered(ts, ctx, es)),
{
    lemma_one_more(ts, ctx, es, i);
    lemma_prefix(ts, ctx, es, i + 1);
    let pre = all_rendered(ts.take(i), ctx, es);
    let k = pre.len() + j;
    assert(all_rendered(ts.take(i + 1), ctx, es)[k] == row(ts[i]@, ctx, es)[j]);
    assert(all_rendered(ts, ctx, es)[k] == row(ts[i]@, ctx, es)[j]);
}

proof fn lemma_step(ts: Seq<String>, ctx: Seq<(String, String)>, es: Seq<String>, i: int, before: Seq<CompiledPattern>, out: Seq<CompiledPattern>)
    requires
        0 <= i < ts.len(),
        all_valid(all_rendered(ts.take(i), ctx, es)),
        texts_of(before) == all_rendered(ts.take(i), ctx, es).map_values(|t: Option<Seq<char>>| t->0),
        out.len() == before.len() + es.len(),
        out.take(before.len() as int) == before,
        forall|x: int| 0 <= x < es.len() ==> (#[trigger] row(ts[i]@, ctx, es)[x]) == Some(out[before.len() + x].text()),
        forall|x: int| 0 <= x < es.len() ==> glob_parses(#[trigger] out[before.len() + x].text()),
    ensures
        all_valid(all_rendered(ts.take(i + 1), ctx, es)),
        texts_of(out) == all_rendered(ts.take(i + 1), ctx, es).map_values(|t: Option<Seq<char>>| t->0),
{
    lemma_one_more(ts, ctx, es, i);
    let pre = all_rendered(ts.take(i), ctx, es);
    let all = all_rendered(ts.take(i + 1), ctx, es);
    let rw = row(ts[i]@, ctx, es);
    assert(pre.len() == before.len()) by {
        assert(texts_of(before).len() == before.len());
    }
    assert forall|k: int| 0 <= k < all.len() implies (#[trigger] all[k] is Some && glob_parses(all[k]->0)) by {
        if k >= pre.len() {
            assert(all[k] == rw[k - pre.len()]);
            assert(out[before.len() + (k - pre.len())].text() == all[k]->0);
        } else {
            assert(all[k] == pre[k]);
        }
    }
    assert forall|k: int| 0 <= k < out.len() implies #[trigger] texts_of(out)[k] == all.map_values(|t: Option<Seq<char>>| t->0)[k] by {
        if k >= before.len() {
            assert(all[k] == rw[k - pre.len()]);
        } else {
            assert(out[k] == out.take(before.len() as int)[k]);
            assert(texts_of(before)[k] == before[k].text());
            assert(all[k] == pre[k]);
        }
    }
    assert(texts_of(out) =~= all.map_values(|t: Option<Seq<char>>| t->0));
}

/// Renders every template once per extension (templates outer, extensions
/// inner) with `ext` bound to the extension, and parses each result as a
/// glob pattern. Fails on the first template that does not render or
/// result that does not parse.
pub fn compile_patterns(templates: &Vec<String>, context: &Vec<(String, String)>, exts: &Vec<String>) -> (r: Result<Vec<CompiledPattern>, Error>)
    ensures
        r is Ok <==> templates_ok(templates@) && all_valid(all_rendered(templates@, context@, exts@)),
        r is Ok ==> texts_of(r->Ok_0@) == all_rendered(templates@, context@, exts@).map_values(|t: Option<Seq<char>>| t->0),
        r matches Err(Error::Template { template }) ==> exists|i: int|
            0 <= i < templates.len() && #[trigger] templates@[i]@ == template@ && (!template_ok(template@)
                || exists|j: int| 0 <= j < exts.len() && #[trigger] rendered(template@, context_for(context@, exts@[j]@)) is None),
        r matches Err(Error::Pattern { pattern }) ==> !glob_parses(pattern@) && exists|i: int, j: int|
            0 <= i < templates.len() && 0 <= j < exts.len()
                && #[trigger] rendered(templates@[i]@, context_for(context@, exts@[j]@)) == Some(pattern@),
        r is Err ==> (r matches Err(Error::Template { .. }) || r matches Err(Error::Pattern { .. })),
{
    let mut c: usize = 0;
    while c < templates.len()
        invariant
            c <= templates.len(),
            forall|x: int| 0 <= x < c ==> template_ok(#[trigger] templates@[x]@),
        decreases templates.len() - c,
    {
        if !check_template(templates[c].as_str()) {
            let t = templates[c].clone();
            proof {
                assert(templates@[c as int]@ == t@);
            }
            return Err(Error::Template { template: t });
        }
        c = c + 1;
    }
    let mut out: Vec<CompiledPattern> = Vec::new();
    let mut i: usize = 0;
    let ghost ts = templates@;
    let ghost ctx = context@;
    let ghost es = exts@;
    assert(ts.take(0) =~= Seq::<String>::empty());
    while i < templates.len()
        invariant
            ts == templates@,
            ctx == context@,
            es == exts@,
            templates_ok(ts),
            i <= ts.len(),
            all_valid(all_rendered(ts.take(i as int), ctx, es)),
            texts_of(out@) == all_rendered(ts.take(i as int), ctx, es).map_values(|t: Option<Seq<char>>| t->0),
        decreases ts.len() - i,
    {
        let ghost before = out@;
        let mut j: usize = 0;
        while j < exts.len()
            invariant
                ts == templates@,
                ctx == context@,
                es == exts@,
                templates_ok(ts),
                i < ts.len(),
                j <= es.len(),
                out@.len() == before.len() + j,
                out@.take(before.len() as int) == before,
                forall|x: int| 0 <= x < j ==> (#[trigger] row(ts[i as int]@, ctx, es)[x]) == Some(out@[before.len() + x].text()),
                forall|x: int| 0 <= x < j ==> glob_parses(#[trigger] out@[before.len() + x].text()),
            decreases es.len() - j,
        {
            let mut c: Vec<(String, String)> = copy_context(context);
            let key = String::from_str("ext");
            proof {
                reveal_strlit("ext");
                assert(key@ =~= ext_key());
            }
            c.push((key, exts[j].clone()));
            proof {
                assert(context_view(c@) =~= context_for(ctx, es[j as int]@));
            }
            let text = match render(templates[i].as_str(), &c) {
                Some(t) => t,
                None => {
                    proof {
                        assert(row(ts[i as int]@, ctx, es)[j as int] is None);
                        lemma_not_valid(ts, ctx, es, i as int, j as int);
                    }
                    return Err(Error::Template { template: templates[i].clone() });
                },
            };
            let ghost tv = text@;
            match CompiledPattern::new(text.clone()) {
                Some(p) => {
                    out.push(p);
                },
                None => {
                    proof {
                        assert(row(ts[i as int]@, ctx, es)[j as int] == Some(tv));
                        lemma_not_valid(ts, ctx, es, i as int, j as int);
                    }
                    return Err(Error::Pattern { pattern: text });
                },
            }
            j = j + 1;
        }
        proof {
            lemma_step(ts, ctx, es, i as int, before, out@);
        }
        i = i + 1;
    }
    proof {
        assert(ts.take(i as int) =~= ts);
    }
    Ok(out)
}

} // verus!
