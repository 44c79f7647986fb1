//! The parts of a small web framework that decide without doing input or
//! output: reading the request line and the headers of a request, and
//! finding the handler of a route.

use crate::text::{chars_of, string_of, white_space};
use vstd::prelude::*;

verus! {

pub const METHOD_GET: &'static str = "GET";

pub const METHOD_HEAD: &'static str = "HEAD";

pub const METHOD_POST: &'static str = "POST";

pub const METHOD_PUT: &'static str = "PUT";

pub const METHOD_DELETE: &'static str = "DELETE";

pub const METHOD_CONNECT: &'static str = "CONNECT";

pub const METHOD_OPTIONS: &'static str = "OPTIONS";

pub const METHOD_TRACE: &'static str = "TRACE";

pub const METHOD_PATCH: &'static str = "PATCH";

/// A line of a request that cannot be read.
#[derive(Copy, Clone, Eq, PartialEq, Structural, Debug)]
pub enum HttpError {
    /// A request line that is not made of three parts with a space between
    /// them.
    BadRequestLine,
    /// A header line without a colon.
    BadHeader,
}

/// The text without the white space at its end.
pub open spec fn trimmed_end(s: Seq<char>) -> Seq<char>
    decreases s.len(),
{
    if s.len() > 0 && white_space(s.last()) {
        trimmed_end(s.drop_last())
    } else {
        s
    }
}

/// The text without the white space at its start.
pub open spec fn trimmed_start(s: Seq<char>) -> Seq<char>
    decreases s.len(),
{
    if s.len() > 0 && white_space(s[0]) {
        trimmed_start(s.drop_first())
    } else {
        s
    }
}

/// The text without the white space at its two ends.
pub open spec fn trimmed(s: Seq<char>) -> Seq<char> {
    trimmed_end(trimmed_start(s))
}

/// The place of the first `ch` in the text, or the length of the text if
/// it holds none.
pub open spec fn first_index(s: Seq<char>, ch: char) -> int
    decreases s.len(),
{
    if s.len() == 0 || s[0] == ch {
        0
    } else {
        1 + first_index(s.drop_first(), ch)
    }
}

/// The pieces of the text between its spaces: one more than it has spaces.
pub open spec fn tokens(s: Seq<char>) -> Seq<Seq<char>>
    decreases s.len(),
{
    let end = first_index(s, ' ');
    if end >= s.len() {
        seq![s]
    } else {
        proof {
            lemma_first_index(s, ' ');
        }
        seq![s.take(end)] + tokens(s.skip(end + 1))
    }
}

pub proof fn lemma_first_index(s: Seq<char>, ch: char)
    ensures
        0 <= first_index(s, ch) <= s.len(),
        first_index(s, ch) < s.len() ==> s[first_index(s, ch)] == ch,
        forall|i: int| 0 <= i < first_index(s, ch) ==> s[i] != ch,
    decreases s.len(),
{
    if s.len() > 0 && s[0] != ch {
        lemma_first_index(s.drop_first(), ch);
        assert forall|i: int| 0 <= i < first_index(s, ch) implies s[i] != ch by {
            if i > 0 {
                assert(s.drop_first()[i - 1] != ch);
            }
        }
    }
}

/// The place of the first `ch` in `chars` at or behind `from`.
fn find(chars: &Vec<char>, from: usize, ch: char) -> (at: usize)
    requires
        from <= chars@.len(),
    ensures
        at == from + first_index(chars@.skip(from as int), ch),
        from <= at <= chars@.len(),
{
    let mut at = from;
    proof {
        lemma_first_index(chars@.skip(from as int), ch);
    }
    while at < chars.len() && chars[at] != ch
        invariant
            from <= at <= chars@.len(),
            at - from + first_index(chars@.skip(at as int), ch) == first_index(
                chars@.skip(from as int),
                ch,
            ),
        decreases chars@.len() - at,
    {
        proof {
            assert(chars@.skip(at as int).drop_first() =~= chars@.skip(at + 1));
        }
        at += 1;
    }
    proof {
        lemma_first_index(chars@.skip(at as int), ch);
    }
    at
}

/// The end of `chars[from..to]` without its white space at the end.
fn trim_end(chars: &Vec<char>, from: usize, to: usize) -> (end: usize)
    requires
        from <= to <= chars@.len(),
    ensures
        from <= end <= to,
        chars@.subrange(from as int, end as int) == trimmed_end(
            chars@.subrange(from as int, to as int),
        ),
{
    let mut end = to;
    while end > from && chars[end - 1].is_whitespace()
        invariant
            from <= end <= to <= chars@.len(),
            trimmed_end(chars@.subrange(from as int, end as int)) == trimmed_end(
                chars@.subrange(from as int, to as int),
            ),
        decreases end,
    {
        proof {
            assert(chars@.subrange(from as int, end as int).drop_last() =~= chars@.subrange(
                from as int,
                end - 1,
            ));
        }
        end -= 1;
    }
    end
}

/// The start of `chars[from..to]` without its white space at the start.
fn trim_start(chars: &Vec<char>, from: usize, to: usize) -> (start: usize)
    requires
        from <= to <= chars@.len(),
    ensures
        from <= start <= to,
        chars@.subrange(start as int, to as int) == trimmed_start(
            chars@.subrange(from as int, to as int),
        ),
{
    let mut start = from;
    while start < to && chars[start].is_whitespace()
        invariant
            from <= start <= to <= chars@.len(),
            trimmed_start(chars@.subrange(start as int, to as int)) == trimmed_start(
                chars@.subrange(from as int, to as int),
            ),
        decreases to - start,
    {
        proof {
            assert(chars@.subrange(start as int, to as int).drop_first() =~= chars@.subrange(
                start + 1,
                to as int,
            ));
        }
        start += 1;
    }
    start
}

/// The text of `chars[from..to]` without the white space at its two ends.
fn trim(chars: &Vec<char>, from: usize, to: usize) -> (text: String)
    requires
        from <= to <= chars@.len(),
    ensures
        text@ == trimmed(chars@.subrange(from as int, to as int)),
{
    let start = trim_start(chars, from, to);
    let end = trim_end(chars, start, to);
    string_of(chars, start, end)
}

/// Reads the method, the path and the version from the first line of a
/// request: the three parts of the line, without the white space at its
/// end, that single spaces separate.
pub fn parse_request_line(line: &str) -> (result: Result<(String, String, String), HttpError>)
    ensures
        match result {
            Ok((method, path, version)) => tokens(trimmed_end(line@)) == seq![
                method@,
                path@,
                version@,
            ],
            Err(error) => error == HttpError::BadRequestLine && tokens(trimmed_end(line@)).len() != 3,
        },
{
    let chars = chars_of(line);
    assert(chars@.subrange(0, chars@.len() as int) =~= chars@);
    let end = trim_end(&chars, 0, chars.len());
    let text = string_of(&chars, 0, end);
    let chars = chars_of(text.as_str());
    let ghost whole = chars@;
    assert(whole == trimmed_end(line@));
    assert(whole.skip(0) =~= whole);
    let first = find(&chars, 0, ' ');
    if first >= chars.len() {
        return Err(HttpError::BadRequestLine);
    }
    let method = string_of(&chars, 0, first);
    let second = find(&chars, first + 1, ' ');
    if second >= chars.len() {
        proof {
            reveal_with_fuel(tokens, 3);
        }
        return Err(HttpError::BadRequestLine);
    }
    let path = string_of(&chars, first + 1, second);
    let third = find(&chars, second + 1, ' ');
    proof {
        reveal_with_fuel(tokens, 4);
        let rest1 = whole.skip(first + 1);
        let rest2 = whole.skip(second + 1);
        assert(rest1.skip(second - first - 1 + 1) =~= rest2);
        assert(whole.take(first as int) =~= whole.subrange(0, first as int));
        assert(rest1.take(second - first - 1) =~= whole.subrange(first + 1, second as int));
        if third < chars.len() {
            assert(tokens(rest2).len() >= 2);
        } else {
            assert(rest2 =~= whole.subrange(second + 1, whole.len() as int));
        }
    }
    if third < chars.len() {
        return Err(HttpError::BadRequestLine);
    }
    let version = string_of(&chars, second + 1, chars.len());
    Ok((method, path, version))
}

/// Reads the name and the value of a header from its line: what stands
/// before the first colon and what stands behind it, both without the white
/// space at their ends.
pub fn parse_header(line: &str) -> (result: Result<(String, String), HttpError>)
    ensures
        match result {
            Ok((key, value)) => {
                &&& first_index(line@, ':') < line@.len()
                &&& key@ == trimmed(line@.take(first_index(line@, ':')))
                &&& value@ == trimmed(line@.skip(first_index(line@, ':') + 1))
            },
            Err(error) => error == HttpError::BadHeader && first_index(line@, ':') == line@.len(),
        },
{
    let chars = chars_of(line);
    assert(chars@.skip(0) =~= chars@);
    let colon = find(&chars, 0, ':');
    if colon < chars.len() {
        assert(chars@.subrange(0, colon as int) =~= line@.take(colon as int));
        assert(chars@.subrange(colon + 1, chars@.len() as int) =~= line@.skip(colon + 1));
        let key = trim(&chars, 0, colon);
        let value = trim(&chars, colon + 1, chars.len());
        Ok((key, value))
    } else {
        Err(HttpError::BadHeader)
    }
}

/// A handler for each method of each path that has one.
pub struct Router<H> {
    routes: Vec<(String, String, H)>,
}

/// What is found for a request.
pub enum Route<'a, H> {
    /// The handler of the method on the path.
    Handler(&'a H),
    /// The path has handlers, but none for the method.
    MethodNotAllowed,
    /// The path has no handler.
    NotFound,
}

/// The paths of a list of routes.
pub open spec fn paths_of<H>(routes: Seq<(String, String, H)>) -> Set<Seq<char>> {
    Set::new(|path: Seq<char>| exists|i: int| 0 <= i < routes.len() && (#[trigger] routes[i]).0@ == path)
}

/// The handlers of a list of routes, by path and method. Of two routes
/// with the same path and method the later one counts.
pub open spec fn handlers_of<H>(routes: Seq<(String, String, H)>) -> Map<(Seq<char>, Seq<char>), H>
    decreases routes.len(),
{
    if routes.len() == 0 {
        Map::empty()
    } else {
        handlers_of(routes.drop_last()).insert(
            (routes.last().0@, routes.last().1@),
            routes.last().2,
        )
    }
}

impl<H> Router<H> {
    /// The paths that have a handler.
    pub closed spec fn paths(&self) -> Set<Seq<char>> {
        paths_of(self.routes@)
    }

    /// The handlers, by path and method.
    pub closed spec fn handlers(&self) -> Map<(Seq<char>, Seq<char>), H> {
        handlers_of(self.routes@)
    }

    /// A router without routes.
    pub fn new() -> (router: Self)
        ensures
            router.paths() == Set::<Seq<char>>::empty(),
            router.handlers() == Map::<(Seq<char>, Seq<char>), H>::empty(),
    {
        let router = Router { routes: Vec::new() };
        assert(router.paths() =~= Set::<Seq<char>>::empty());
        router
    }

    /// Makes `handler` the handler of `method` on `path`.
    pub fn add_handler(&mut self, method: &str, path: &str, handler: H)
        ensures
            final(self).paths() == old(self).paths().insert(path@),
            final(self).handlers() == old(self).handlers().insert((path@, method@), handler),
    {
        let ghost before = self.routes@;
        self.routes.push((path.to_string(), method.to_string(), handler));
        proof {
            assert(self.routes@.drop_last() =~= before);
            assert(self.paths() =~= old(self).paths().insert(path@)) by {
                assert forall|p: Seq<char>| old(self).paths().insert(path@).contains(p) implies self.paths().contains(
                    p,
                ) by {
                    if p == path@ {
                        assert(self.routes@[self.routes@.len() - 1].0@ == p);
                    } else {
                        let i = choose|i: int| 0 <= i < before.len() && (#[trigger] before[i]).0@ == p;
                        assert(self.routes@[i].0@ == p);
                    }
                }
                assert forall|p: Seq<char>| self.paths().contains(p) implies old(self).paths().insert(
                    path@,
                ).contains(p) by {
                    let i = choose|i: int|
                        0 <= i < self.routes@.len() && (#[trigger] self.routes@[i]).0@ == p;
                    if i < before.len() {
                        assert(before[i].0@ == p);
                    }
                }
            }
        }
    }

    /// The handler for a request of `method` on `path`, or why there is
    /// none.
    pub fn get_handler(&self, method: &str, path: &str) -> (route: Route<'_, H>)
        ensures
            match route {
                Route::Handler(handler) => self.handlers().contains_key((path@, method@))
                    && self.handlers()[(path@, method@)] == *handler,
                Route::MethodNotAllowed => !self.handlers().contains_key((path@, method@))
                    && self.paths().contains(path@),
                Route::NotFound => !self.paths().contains(path@),
            },
    {
        let mut known = false;
        let mut i = self.routes.len();
        assert(self.routes@.take(i as int) =~= self.routes@);
        while i > 0
            invariant
                i <= self.routes@.len(),
                handlers_of(self.routes@).contains_key((path@, method@)) <==> handlers_of(
                    self.routes@.take(i as int),
                ).contains_key((path@, method@)),
                handlers_of(self.routes@).contains_key((path@, method@)) ==> handlers_of(
                    self.routes@,
                )[(path@, method@)] == handlers_of(self.routes@.take(i as int))[(path@, method@)],
                known <==> exists|k: int|
                    i <= k < self.routes@.len() && (#[trigger] self.routes@[k]).0@ == path@,
            decreases i,
        {
            i -= 1;
            proof {
                assert(self.routes@.take(i + 1).drop_last() =~= self.routes@.take(i as int));
                assert(self.routes@.take(i + 1).last() == self.routes@[i as int]);
            }
            if self.routes[i].0.as_str().eq(path) {
                if self.routes[i].1.as_str().eq(method) {
                    return Route::Handler(&self.routes[i].2);
                }
                known = true;
            }
        }
        if known {
            Route::MethodNotAllowed
        } else {
            Route::NotFound
        }
    }
}

} // verus!
