//! Deterministic robots.txt generation.
use vstd::prelude::*;
use crate::text::{
    has_no_control_or_space, is_token_text, no_control_or_space, push_char, push_str, starts_with,
    str_starts_with, token_text,
};

verus! {

#[derive(Debug, Clone, Copy, PartialEq, Eq, Structural)]
pub enum RobotsError {
    InvalidValue,
}

#[derive(Debug, Clone, PartialEq, Eq)]
pub struct RobotsTxt {
    user_agent: String,
    disallow: Vec<String>,
    allow: Vec<String>,
    sitemaps: Vec<String>,
}

pub const MAX_AGENT_BYTES: usize = 128;

/// A rule path: starts with `/`, no control or whitespace characters.
pub open spec fn valid_path(p: Seq<char>) -> bool {
    p.len() > 0 && p[0] == '/' && no_control_or_space(p)
}

/// A sitemap: an `https://` URL without control or whitespace characters.
pub open spec fn valid_sitemap(u: Seq<char>) -> bool {
    starts_with(u, seq!['h', 't', 't', 'p', 's', ':', '/', '/']) && no_control_or_space(u)
}

/// One line `<label><value>` per value, each ending in a newline.
pub open spec fn lines(label: Seq<char>, values: Seq<Seq<char>>) -> Seq<char>
    decreases values.len(),
{
    if values.len() == 0 {
        Seq::empty()
    } else {
        lines(label, values.drop_last()) + label + values.last() + seq!['\n']
    }
}

pub open spec fn views_of(v: Seq<String>) -> Seq<Seq<char>> {
    v.map_values(|s: String| s@)
}

/// The rendered file.
pub open spec fn robots_text(
    agent: Seq<char>,
    disallow: Seq<Seq<char>>,
    allow: Seq<Seq<char>>,
    sitemaps: Seq<Seq<char>>,
) -> Seq<char> {
    "User-agent: "@ + agent + seq!['\n'] + lines("Disallow: "@, disallow) + lines("Allow: "@, allow)
        + lines("Sitemap: "@, sitemaps)
}

fn push_lines(out: &mut String, label: &str, values: &Vec<String>)
    ensures
        final(out)@ == old(out)@ + lines(label@, views_of(values@)),
{
    let mut i: usize = 0;
    while i < values.len()
        invariant
            i <= values@.len(),
            out@ == old(out)@ + lines(label@, views_of(values@.take(i as int))),
        decreases values@.len() - i,
    {
        proof {
            let t = views_of(values@.take(i + 1));
            assert(t.drop_last() =~= views_of(values@.take(i as int)));
            assert(t.last() == values@[i as int]@);
        }
        push_str(out, label);
        push_str(out, values[i].as_str());
        push_char(out, '\n');
        i = i + 1;
        proof {
            let t = views_of(values@.take(i as int));
            assert(out@ =~= old(out)@ + lines(label@, t));
        }
    }
    assert(values@.take(values@.len() as int) =~= values@);
}

fn check_path(p: &str) -> (r: bool)
    ensures
        r == valid_path(p@),
{
    proof {
        reveal_strlit("/");
        assert("/"@ =~= seq!['/']);
        if p@.len() > 0 {
            assert(p@.take(1)[0] == p@[0]);
            if p@[0] == '/' {
                assert(p@.take(1) =~= seq!['/']);
            }
        }
    }
    str_starts_with(p, "/") && has_no_control_or_space(p)
}

impl RobotsTxt {
    pub closed spec fn agent(&self) -> Seq<char> {
        self.user_agent@
    }

    pub closed spec fn disallowed(&self) -> Seq<Seq<char>> {
        views_of(self.disallow@)
    }

    pub closed spec fn allowed(&self) -> Seq<Seq<char>> {
        views_of(self.allow@)
    }

    pub closed spec fn sitemap_urls(&self) -> Seq<Seq<char>> {
        views_of(self.sitemaps@)
    }

    /// Rules for `user_agent`: 1 to 128 bytes, no control or whitespace characters.
    pub fn new(user_agent: &str) -> (r: Result<RobotsTxt, RobotsError>)
        ensures
            !token_text(user_agent@, MAX_AGENT_BYTES as nat) ==> r == Err::<RobotsTxt, _>(
                RobotsError::InvalidValue,
            ),
            token_text(user_agent@, MAX_AGENT_BYTES as nat) ==> (r matches Ok(t) && t.agent()
                == user_agent@ && t.disallowed() == Seq::<Seq<char>>::empty() && t.allowed()
                == Seq::<Seq<char>>::empty() && t.sitemap_urls() == Seq::<Seq<char>>::empty()),
    {
        if !is_token_text(user_agent, MAX_AGENT_BYTES) {
            return Err(RobotsError::InvalidValue);
        }
        let t = RobotsTxt {
            user_agent: user_agent.to_string(),
            disallow: Vec::new(),
            allow: Vec::new(),
            sitemaps: Vec::new(),
        };
        assert(t.disallowed() =~= Seq::<Seq<char>>::empty());
        assert(t.allowed() =~= Seq::<Seq<char>>::empty());
        assert(t.sitemap_urls() =~= Seq::<Seq<char>>::empty());
        Ok(t)
    }

    /// Adds a `Disallow` rule for `path`.
    pub fn disallow(self, path: &str) -> (r: Result<RobotsTxt, RobotsError>)
        ensures
            !valid_path(path@) ==> r == Err::<RobotsTxt, _>(RobotsError::InvalidValue),
            valid_path(path@) ==> (r matches Ok(t) && t.agent() == self.agent() && t.disallowed()
                == self.disallowed().push(path@) && t.allowed() == self.allowed() && t.sitemap_urls()
                == self.sitemap_urls()),
    {
        if !check_path(path) {
            return Err(RobotsError::InvalidValue);
        }
        let mut t = self;
        t.disallow.push(path.to_string());
        assert(views_of(t.disallow@) =~= views_of(self.disallow@).push(path@));
        Ok(t)
    }

    /// Adds an `Allow` rule for `path`.
    pub fn allow(self, path: &str) -> (r: Result<RobotsTxt, RobotsError>)
        ensures
            !valid_path(path@) ==> r == Err::<RobotsTxt, _>(RobotsError::InvalidValue),
            valid_path(path@) ==> (r matches Ok(t) && t.agent() == self.agent() && t.allowed()
                == self.allowed().push(path@) && t.disallowed() == self.disallowed() && t.sitemap_urls()
                == self.sitemap_urls()),
    {
        if !check_path(path) {
            return Err(RobotsError::InvalidValue);
        }
        let mut t = self;
        t.allow.push(path.to_string());
        assert(views_of(t.allow@) =~= views_of(self.allow@).push(path@));
        Ok(t)
    }

    /// Adds a `Sitemap` line for `url`.
    pub fn sitemap(self, url: &str) -> (r: Result<RobotsTxt, RobotsError>)
        ensures
            !valid_sitemap(url@) ==> r == Err::<RobotsTxt, _>(RobotsError::InvalidValue),
            valid_sitemap(url@) ==> (r matches Ok(t) && t.agent() == self.agent() && t.sitemap_urls()
                == self.sitemap_urls().push(url@) && t.disallowed() == self.disallowed() && t.allowed()
                == self.allowed()),
    {
        proof {
            reveal_strlit("https://");
            assert("https://"@ =~= seq!['h', 't', 't', 'p', 's', ':', '/', '/']);
        }
        if !str_starts_with(url, "https://") || !has_no_control_or_space(url) {
            return Err(RobotsError::InvalidValue);
        }
        let mut t = self;
        t.sitemaps.push(url.to_string());
        assert(views_of(t.sitemaps@) =~= views_of(self.sitemaps@).push(url@));
        Ok(t)
    }

    /// The file: the user agent, then the `Disallow`, `Allow` and `Sitemap` lines in the order
    /// they were added.
    pub fn render(&self) -> (s: String)
        ensures
            s@ == robots_text(self.agent(), self.disallowed(), self.allowed(), self.sitemap_urls()),
    {
        let mut out = String::new();
        push_str(&mut out, "User-agent: ");
        push_str(&mut out, self.user_agent.as_str());
        push_char(&mut out, '\n');
        push_lines(&mut out, "Disallow: ", &self.disallow);
        push_lines(&mut out, "Allow: ", &self.allow);
        push_lines(&mut out, "Sitemap: ", &self.sitemaps);
        proof {
            reveal_strlit("User-agent: ");
            assert(out@ =~= robots_text(
                self.agent(),
                self.disallowed(),
                self.allowed(),
                self.sitemap_urls(),
            ));
        }
        out
    }
}

} // verus!
