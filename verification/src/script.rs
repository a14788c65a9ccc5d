//! Script tags with a loading strategy and optional integrity hash, one per source.
use vstd::prelude::*;
use crate::text::{
    chars_of, has_no_control_or_space, lemma_seq_lt_order, no_control_or_space, push_char, push_str,
    seq_lt, starts_with, str_eq, str_lt, str_starts_with,
};

verus! {

#[derive(Debug, Clone, Copy, PartialEq, Eq, Structural)]
pub enum ScriptStrategy {
    Defer,
    Lazy,
    Worker,
}

#[derive(Debug, Clone, Copy, PartialEq, Eq, Structural)]
pub enum ScriptError {
    InvalidSource,
    InvalidIntegrity,
}

#[derive(Debug, Clone)]
struct ScriptEntry {
    src: String,
    strategy: ScriptStrategy,
    integrity: Option<String>,
}

pub struct ScriptView {
    pub src: Seq<char>,
    pub strategy: ScriptStrategy,
    pub integrity: Option<Seq<char>>,
}

pub open spec fn opt_text(o: Option<String>) -> Option<Seq<char>> {
    match o {
        Some(i) => Some(i@),
        None => None,
    }
}

spec fn entry_view(e: ScriptEntry) -> ScriptView {
    ScriptView { src: e.src@, strategy: e.strategy, integrity: opt_text(e.integrity) }
}

/// The scripts, one per source, in source order.
#[derive(Debug, Clone)]
pub struct ScriptRegistry {
    scripts: Vec<ScriptEntry>,
}

/// Shortest integrity value, in bytes.
pub const MIN_INTEGRITY_BYTES: usize = 16;

/// A source: a site path or an `https://` URL, without control or whitespace characters.
pub open spec fn valid_source(s: Seq<char>) -> bool {
    s.len() > 0 && no_control_or_space(s) && (s[0] == '/' || starts_with(
        s,
        seq!['h', 't', 't', 'p', 's', ':', '/', '/'],
    ))
}

pub open spec fn valid_integrity(i: Seq<char>) -> bool {
    crate::text::byte_len(i) >= MIN_INTEGRITY_BYTES && no_control_or_space(i)
}

/// `&`, `"` and `<` written as entities.
pub open spec fn escape(s: Seq<char>) -> Seq<char>
    decreases s.len(),
{
    if s.len() == 0 {
        s
    } else {
        escape(s.drop_last()) + if s.last() == '&' {
            "&amp;"@
        } else if s.last() == '"' {
            "&quot;"@
        } else if s.last() == '<' {
            "&lt;"@
        } else {
            seq![s.last()]
        }
    }
}

pub open spec fn mode_text(s: ScriptStrategy) -> Seq<char> {
    match s {
        ScriptStrategy::Defer => " defer"@,
        ScriptStrategy::Lazy => " data-loading=\"lazy\""@,
        ScriptStrategy::Worker => " type=\"text/worker\""@,
    }
}

pub open spec fn script_tag(e: ScriptView) -> Seq<char> {
    "<script src=\""@ + escape(e.src) + "\""@ + mode_text(e.strategy) + match e.integrity {
        Some(i) => " integrity=\""@ + escape(i) + "\" crossorigin=\"anonymous\""@,
        None => Seq::empty(),
    } + "></script>"@
}

pub open spec fn render_all(es: Seq<ScriptView>) -> Seq<char>
    decreases es.len(),
{
    if es.len() == 0 {
        Seq::empty()
    } else {
        render_all(es.drop_last()) + script_tag(es.last())
    }
}

pub open spec fn src_ordered(es: Seq<ScriptView>) -> bool {
    forall|i: int, j: int| 0 <= i < j < es.len() ==> seq_lt(#[trigger] es[i].src, #[trigger] es[j].src)
}

/// `x` placed by source, replacing the entry with the same source.
pub open spec fn put_script(es: Seq<ScriptView>, x: ScriptView) -> Seq<ScriptView>
    decreases es.len(),
{
    if es.len() == 0 || seq_lt(es.last().src, x.src) {
        es.push(x)
    } else if es.last().src == x.src {
        es.drop_last().push(x)
    } else {
        put_script(es.drop_last(), x).push(es.last())
    }
}

fn push_escaped(out: &mut String, s: &str)
    ensures
        final(out)@ == old(out)@ + escape(s@),
{
    let v = chars_of(s);
    let mut i: usize = 0;
    proof {
        reveal_strlit("&amp;");
        reveal_strlit("&quot;");
        reveal_strlit("&lt;");
    }
    while i < v.len()
        invariant
            v@ == s@,
            i <= v@.len(),
            out@ == old(out)@ + escape(s@.take(i as int)),
        decreases v@.len() - i,
    {
        proof {
            assert(s@.take(i + 1).drop_last() =~= s@.take(i as int));
            assert(s@.take(i + 1).last() == v@[i as int]);
        }
        let c = v[i];
        if c == '&' {
            push_str(out, "&amp;");
        } else if c == '"' {
            push_str(out, "&quot;");
        } else if c == '<' {
            push_str(out, "&lt;");
        } else {
            push_char(out, c);
        }
        i = i + 1;
        assert(out@ =~= old(out)@ + escape(s@.take(i as int)));
    }
    assert(s@.take(v@.len() as int) =~= s@);
}

proof fn lemma_put_script(es: Seq<ScriptView>, x: ScriptView, p: int)
    requires
        src_ordered(es),
        0 <= p <= es.len(),
        forall|j: int| 0 <= j < p ==> seq_lt(#[trigger] es[j].src, x.src),
        forall|j: int| p <= j < es.len() ==> !seq_lt(#[trigger] es[j].src, x.src),
    ensures
        p < es.len() && es[p].src == x.src ==> put_script(es, x) == es.update(p, x),
        !(p < es.len() && es[p].src == x.src) ==> put_script(es, x) == es.insert(p, x),
        src_ordered(put_script(es, x)),
    decreases es.len(),
{
    if es.len() == 0 {
        assert(es.insert(p, x) =~= es.push(x));
    } else if seq_lt(es.last().src, x.src) {
        assert(p == es.len());
        assert(es.insert(p, x) =~= es.push(x));
        let r = es.push(x);
        assert forall|a: int, c: int| 0 <= a < c < r.len() implies seq_lt(#[trigger] r[a].src, #[trigger] r[c].src) by {
            if c == es.len() && a < es.len() - 1 {
                lemma_seq_lt_order(es[a].src, es.last().src, x.src);
            }
        }
    } else if es.last().src == x.src {
        if p == es.len() {
            lemma_seq_lt_order(x.src, x.src, x.src);
        }
        if p < es.len() - 1 {
            assert(seq_lt(es[p].src, es[es.len() - 1].src));
        }
        assert(p == es.len() - 1);
        assert(es.drop_last().push(x) =~= es.update(p, x));
        let r = es.update(p, x);
        assert forall|a: int, c: int| 0 <= a < c < r.len() implies seq_lt(#[trigger] r[a].src, #[trigger] r[c].src) by {
            assert(r[a].src == es[a].src && r[c].src == es[c].src);
        }
    } else {
        lemma_seq_lt_order(es.last().src, x.src, es.last().src);
        let t = es.drop_last();
        if p == es.len() {
            assert(seq_lt(es[es.len() - 1].src, x.src));
        }
        assert forall|a: int, c: int| 0 <= a < c < t.len() implies seq_lt(#[trigger] t[a].src, #[trigger] t[c].src) by {
            assert(t[a] == es[a] && t[c] == es[c]);
        }
        assert forall|j: int| 0 <= j < p implies seq_lt(#[trigger] t[j].src, x.src) by {
            assert(t[j] == es[j]);
        }
        assert forall|j: int| p <= j < t.len() implies !seq_lt(#[trigger] t[j].src, x.src) by {
            assert(t[j] == es[j]);
        }
        lemma_put_script(t, x, p);
        let r = put_script(es, x);
        if p < es.len() && es[p].src == x.src {
            assert(t[p] == es[p]);
            assert(r =~= es.update(p, x));
        } else {
            if p < t.len() {
                assert(t[p] == es[p]);
            }
            assert(r =~= es.insert(p, x));
        }
        assert forall|a: int, c: int| 0 <= a < c < r.len() implies seq_lt(#[trigger] r[a].src, #[trigger] r[c].src) by {
            let tr = put_script(t, x);
            if c == r.len() - 1 {
                assert(r[c] == es.last());
                if a < tr.len() {
                    assert(r[a] == tr[a]);
                    if tr[a] == x {
                        lemma_seq_lt_order(x.src, es.last().src, x.src);
                    } else {
                        let k = if a < p { a } else if p < es.len() && es[p].src == x.src { a } else { a - 1 };
                        assert(tr[a] == t[k] || tr[a] == x);
                        assert(seq_lt(t[k].src, es.last().src) || tr[a] == x) by {
                            assert(t[k] == es[k]);
                        }
                    }
                }
            } else {
                assert(r[a] == tr[a] && r[c] == tr[c]);
            }
        }
    }
}

impl ScriptRegistry {
    pub closed spec fn scripts(&self) -> Seq<ScriptView> {
        self.scripts@.map_values(|e: ScriptEntry| entry_view(e))
    }

    pub closed spec fn wf(&self) -> bool {
        src_ordered(self.scripts())
    }

    pub fn new() -> (r: ScriptRegistry)
        ensures
            r.wf(),
            r.scripts() == Seq::<ScriptView>::empty(),
    {
        let r = ScriptRegistry { scripts: Vec::new() };
        assert(r.scripts() =~= Seq::<ScriptView>::empty());
        r
    }

    /// Adds the script at `src`, replacing an earlier one with the same source.
    pub fn add(self, src: &str, strategy: ScriptStrategy, integrity: Option<String>) -> (r: Result<
        ScriptRegistry,
        ScriptError,
    >)
        requires
            self.wf(),
        ensures
            !valid_source(src@) ==> r == Err::<ScriptRegistry, _>(ScriptError::InvalidSource),
            valid_source(src@) && (integrity matches Some(i) && !valid_integrity(i@)) ==> r == Err::<
                ScriptRegistry,
                _,
            >(ScriptError::InvalidIntegrity),
            valid_source(src@) && !(integrity matches Some(i) && !valid_integrity(i@)) ==> (r matches Ok(
                g,
            ) && g.wf() && g.scripts() == put_script(
                self.scripts(),
                ScriptView {
                    src: src@,
                    strategy,
                    integrity: opt_text(integrity),
                },
            )),
    {
        proof {
            reveal_strlit("/");
            reveal_strlit("https://");
            assert("/"@ =~= seq!['/']);
            assert("https://"@ =~= seq!['h', 't', 't', 'p', 's', ':', '/', '/']);
            if src@.len() > 0 {
                assert(src@.take(1)[0] == src@[0]);
                if src@[0] == '/' {
                    assert(src@.take(1) =~= seq!['/']);
                }
            }
        }
        if src.is_empty() || !has_no_control_or_space(src) || (!str_starts_with(src, "/")
            && !str_starts_with(src, "https://")) {
            return Err(ScriptError::InvalidSource);
        }
        match &integrity {
            Some(i) => {
                if i.as_str().len() < MIN_INTEGRITY_BYTES || !has_no_control_or_space(i.as_str()) {
                    return Err(ScriptError::InvalidIntegrity);
                }
            },
            None => {},
        }
        let ghost x = ScriptView {
            src: src@,
            strategy,
            integrity: opt_text(integrity),
        };
        let ghost es = self.scripts();
        let mut g = self;
        let mut p: usize = 0;
        while p < g.scripts.len() && str_lt(g.scripts[p].src.as_str(), src)
            invariant
                es == g.scripts(),
                p <= es.len(),
                forall|j: int| 0 <= j < p ==> seq_lt(#[trigger] es[j].src, src@),
            decreases es.len() - p,
        {
            p = p + 1;
        }
        proof {
            assert forall|j: int| p <= j < es.len() implies !seq_lt(#[trigger] es[j].src, src@) by {
                if j > p {
                    assert(seq_lt(es[p as int].src, es[j].src));
                    lemma_seq_lt_order(es[p as int].src, es[j].src, src@);
                }
            }
            lemma_put_script(es, x, p as int);
        }
        let entry = ScriptEntry { src: src.to_string(), strategy, integrity };
        assert(entry_view(entry) == x);
        if p < g.scripts.len() && str_eq(g.scripts[p].src.as_str(), src) {
            g.scripts.set(p, entry);
            assert(g.scripts() =~= es.update(p as int, x));
        } else {
            g.scripts.insert(p, entry);
            assert(g.scripts() =~= es.insert(p as int, x));
        }
        Ok(g)
    }

    /// One tag per script, in source order.
    pub fn render(&self) -> (s: String)
        ensures
            s@ == render_all(self.scripts()),
    {
        let mut o = String::new();
        let ghost es = self.scripts();
        let mut i: usize = 0;
        while i < self.scripts.len()
            invariant
                es == self.scripts(),
                i <= es.len(),
                o@ == render_all(es.take(i as int)),
            decreases es.len() - i,
        {
            let e = &self.scripts[i];
            proof {
                assert(es.take(i + 1).drop_last() =~= es.take(i as int));
                assert(es.take(i + 1).last() == entry_view(*e));
            }
            push_tag(&mut o, e);
            i = i + 1;
        }
        assert(es.take(es.len() as int) =~= es);
        o
    }
}

fn push_tag(o: &mut String, e: &ScriptEntry)
    ensures
        final(o)@ == old(o)@ + script_tag(entry_view(*e)),
{
    proof {
        reveal_strlit("<script src=\"");
        reveal_strlit("\"");
        reveal_strlit(" defer");
        reveal_strlit(" data-loading=\"lazy\"");
        reveal_strlit(" type=\"text/worker\"");
        reveal_strlit(" integrity=\"");
        reveal_strlit("\" crossorigin=\"anonymous\"");
        reveal_strlit("></script>");
    }
    let ghost before = o@;
    push_str(o, "<script src=\"");
    push_escaped(o, e.src.as_str());
    push_str(o, "\"");
    match e.strategy {
        ScriptStrategy::Defer => push_str(o, " defer"),
        ScriptStrategy::Lazy => push_str(o, " data-loading=\"lazy\""),
        ScriptStrategy::Worker => push_str(o, " type=\"text/worker\""),
    }
    let ghost mid = o@;
    match &e.integrity {
        Some(h) => {
            push_str(o, " integrity=\"");
            push_escaped(o, h.as_str());
            push_str(o, "\" crossorigin=\"anonymous\"");
        },
        None => {},
    }
    push_str(o, "></script>");
    proof {
        assert(o@ =~= before + script_tag(entry_view(*e)));
    }
}

impl Default for ScriptRegistry {
    fn default() -> (r: Self)
        ensures
            r.wf(),
            r.scripts() == Seq::<ScriptView>::empty(),
    {
        ScriptRegistry::new()
    }
}

} // verus!
