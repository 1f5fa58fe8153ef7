use crate::text::{chars_of, find_non_space, find_space, find_trim_end};
use crate::text::{is_space, lemma_skip_spaces, lemma_skip_word, skip_spaces, skip_word, trimmed};
use vstd::prelude::*;

verus! {

/// One source endpoint name with the destinations it fans out to, in the
/// order in which they were configured.
#[derive(Clone, Debug, PartialEq, Eq)]
pub struct Route {
    pub source: String,
    pub dests: Vec<String>,
}

/// The routing configuration: devices to leave alone and the routes to
/// establish, in the order in which their sources first appeared.
#[derive(Clone, Debug, PartialEq, Eq)]
pub struct Config {
    pub ignore: Vec<String>,
    pub connections: Vec<Route>,
}

/// What a `Route` stands for.
pub struct RouteView {
    pub source: Seq<char>,
    pub dests: Seq<Seq<char>>,
}

/// What a `Config` stands for.
pub struct ConfigView {
    pub ignore: Seq<Seq<char>>,
    pub connections: Seq<RouteView>,
}

/// What one line of a configuration asks for.
pub enum Directive {
    /// `ignore <device-name>`
    Ignore(Seq<char>),
    /// `connect <source-name> -> <destination-name>`
    Connect(Seq<char>, Seq<char>),
    /// A line that starts with a keyword and is not of its form.
    Malformed,
    /// A line that starts with no keyword.
    Other,
}

/// The texts of a sequence of strings.
pub open spec fn names_view(names: Seq<String>) -> Seq<Seq<char>> {
    names.map_values(|s: String| s@)
}

impl View for Route {
    type V = RouteView;

    open spec fn view(&self) -> RouteView {
        RouteView { source: self.source@, dests: names_view(self.dests@) }
    }
}

/// The views of a sequence of routes.
pub open spec fn routes_view(routes: Seq<Route>) -> Seq<RouteView> {
    routes.map_values(|r: Route| r@)
}

impl View for Config {
    type V = ConfigView;

    open spec fn view(&self) -> ConfigView {
        ConfigView {
            ignore: names_view(self.ignore@),
            connections: routes_view(self.connections@),
        }
    }
}

/// The configuration that holds nothing.
pub open spec fn empty_config() -> ConfigView {
    ConfigView { ignore: Seq::empty(), connections: Seq::empty() }
}

/// No source occurs twice, and every route has a destination.
pub open spec fn routes_wf(routes: Seq<RouteView>) -> bool {
    &&& forall|i: int, j: int|
        0 <= i < j < routes.len() ==> (#[trigger] routes[i]).source != (#[trigger] routes[j]).source
    &&& forall|i: int| 0 <= i < routes.len() ==> (#[trigger] routes[i]).dests.len() > 0
}

/// Whether the separator `->` stands at index `p` of `line`.
pub open spec fn separator_at(line: Seq<char>, p: int) -> bool {
    0 <= p && p + 1 < line.len() && line[p] == '-' && line[p + 1] == '>'
}

/// Whether `p` is the place of the one and only separator of `line` at or
/// after `from`.
pub open spec fn sole_separator(line: Seq<char>, from: int, p: int) -> bool {
    &&& from <= p
    &&& separator_at(line, p)
    &&& forall|q: int| from <= q && #[trigger] separator_at(line, q) ==> q == p
}

/// The second run of non-space characters of `line`, if it has two.
pub open spec fn second_token(line: Seq<char>) -> Option<Seq<char>> {
    let n = line.len() as int;
    let a = skip_spaces(line, 0, n);
    let b = skip_word(line, a, n);
    let c = skip_spaces(line, b, n);
    let d = skip_word(line, c, n);
    if c < d {
        Some(line.subrange(c, d))
    } else {
        None
    }
}

/// How a line is read. The keywords are case-sensitive and must start the
/// line. An `ignore` line names a device by its second token. A `connect`
/// line holds the separator exactly once; the source is what stands
/// between the keyword and the separator, the destination what follows the
/// separator, both without surrounding white space.
pub open spec fn directive(line: Seq<char>) -> Directive {
    if "ignore"@.is_prefix_of(line) {
        match second_token(line) {
            Some(name) => Directive::Ignore(name),
            None => Directive::Malformed,
        }
    } else if "connect"@.is_prefix_of(line) {
        let k = "connect"@.len() as int;
        if exists|p: int| sole_separator(line, k, p) {
            let p = choose|p: int| sole_separator(line, k, p);
            Directive::Connect(trimmed(line, k, p), trimmed(line, p + 2, line.len() as int))
        } else {
            Directive::Malformed
        }
    } else {
        Directive::Other
    }
}

/// The first index at or after `i` whose route has the source `source`, or
/// the length of `routes`.
pub open spec fn source_index(routes: Seq<RouteView>, source: Seq<char>, i: int) -> int
    decreases routes.len() - i,
{
    if 0 <= i < routes.len() && routes[i].source != source {
        source_index(routes, source, i + 1)
    } else {
        i
    }
}

/// `routes` with `dest` appended to the destinations of `source`; a source
/// seen for the first time goes to the end.
pub open spec fn add_route(routes: Seq<RouteView>, source: Seq<char>, dest: Seq<char>) -> Seq<
    RouteView,
> {
    let j = source_index(routes, source, 0);
    if 0 <= j < routes.len() {
        routes.update(j, RouteView { source, dests: routes[j].dests.push(dest) })
    } else {
        routes.push(RouteView { source, dests: seq![dest] })
    }
}

/// The effect of one directive. A malformed line is skipped, like a line
/// without a keyword, and reading goes on with the next line.
pub open spec fn apply_directive(cfg: ConfigView, d: Directive) -> ConfigView {
    match d {
        Directive::Ignore(name) => ConfigView {
            ignore: cfg.ignore.push(name),
            connections: cfg.connections,
        },
        Directive::Connect(source, dest) => ConfigView {
            ignore: cfg.ignore,
            connections: add_route(cfg.connections, source, dest),
        },
        Directive::Malformed => cfg,
        Directive::Other => cfg,
    }
}

/// Reads `text` from index `i` on, where the current line began at `start`
/// and `cfg` holds the lines before it. Lines end at a line feed; a last
/// line without one counts when it is not empty.
pub open spec fn parse_from(text: Seq<char>, start: int, i: int, cfg: ConfigView) -> ConfigView
    decreases text.len() - i,
{
    if 0 <= start <= i < text.len() {
        if text[i] == '\n' {
            parse_from(
                text,
                i + 1,
                i + 1,
                apply_directive(cfg, directive(text.subrange(start, i))),
            )
        } else {
            parse_from(text, start, i + 1, cfg)
        }
    } else if 0 <= start < i == text.len() {
        apply_directive(cfg, directive(text.subrange(start, i)))
    } else {
        cfg
    }
}

/// The configuration that `text` describes.
pub open spec fn parse_config(text: Seq<char>) -> ConfigView {
    parse_from(text, 0, 0, empty_config())
}

/// Appending a route with a new source keeps the sources distinct, and so
/// does a longer destination list under a source that is there.
pub proof fn lemma_add_route_wf(routes: Seq<RouteView>, source: Seq<char>, dest: Seq<char>)
    requires
        routes_wf(routes),
    ensures
        routes_wf(add_route(routes, source, dest)),
{
    lemma_source_index(routes, source, 0);
}

/// `source_index` stays in range, passes only other sources and stops at
/// `source` or at the end.
pub proof fn lemma_source_index(routes: Seq<RouteView>, source: Seq<char>, i: int)
    requires
        0 <= i <= routes.len(),
    ensures
        i <= source_index(routes, source, i) <= routes.len(),
        forall|k: int| i <= k < source_index(routes, source, i) ==> (#[trigger] routes[k]).source != source,
        source_index(routes, source, i) < routes.len() ==> routes[source_index(
            routes,
            source,
            i,
        )].source == source,
    decreases routes.len() - i,
{
    if i < routes.len() && routes[i].source != source {
        lemma_source_index(routes, source, i + 1);
    }
}

/// Every configuration that `parse_from` reaches from a well-formed one is
/// well-formed.
pub proof fn lemma_parse_from_wf(text: Seq<char>, start: int, i: int, cfg: ConfigView)
    requires
        routes_wf(cfg.connections),
    ensures
        routes_wf(parse_from(text, start, i, cfg).connections),
    decreases text.len() - i,
{
    if 0 <= start <= i < text.len() {
        if text[i] == '\n' {
            let d = directive(text.subrange(start, i));
            lemma_apply_directive_wf(cfg, d);
            lemma_parse_from_wf(text, i + 1, i + 1, apply_directive(cfg, d));
        } else {
            lemma_parse_from_wf(text, start, i + 1, cfg);
        }
    } else if 0 <= start < i == text.len() {
        lemma_apply_directive_wf(cfg, directive(text.subrange(start, i)));
    }
}

/// One directive keeps a configuration well-formed.
pub proof fn lemma_apply_directive_wf(cfg: ConfigView, d: Directive)
    requires
        routes_wf(cfg.connections),
    ensures
        routes_wf(apply_directive(cfg, d).connections),
{
    match d {
        Directive::Connect(source, dest) => lemma_add_route_wf(cfg.connections, source, dest),
        _ => {},
    }
}

/// Reading a text gives one configuration: two results for the same text
/// have the same ignore list and the same routes, with the destinations of
/// each source in the same order.
pub proof fn lemma_parse_deterministic(a: Config, b: Config, text: Seq<char>)
    requires
        a@ == parse_config(text),
        b@ == parse_config(text),
    ensures
        a@.ignore == b@.ignore,
        a@.connections == b@.connections,
        routes_wf(a@.connections),
{
    lemma_parse_from_wf(text, 0, 0, empty_config());
}

/// The device name of an `ignore` line is not empty and holds no space.
pub proof fn lemma_second_token(line: Seq<char>)
    ensures
        match second_token(line) {
            Some(name) => name.len() > 0 && forall|k: int|
                0 <= k < name.len() ==> !is_space(#[trigger] name[k]),
            None => true,
        },
{
    let n = line.len() as int;
    lemma_skip_spaces(line, 0, n);
    let a = skip_spaces(line, 0, n);
    lemma_skip_word(line, a, n);
    let b = skip_word(line, a, n);
    lemma_skip_spaces(line, b, n);
    let c = skip_spaces(line, b, n);
    lemma_skip_word(line, c, n);
}

/// Whether `s` holds no line feed.
pub open spec fn no_line_feed(s: Seq<char>) -> bool {
    forall|k: int| 0 <= k < s.len() ==> s[k] != '\n'
}

/// Whether `text` is empty or ends with a line feed.
pub open spec fn ends_lines(text: Seq<char>) -> bool {
    text.len() == 0 || text.last() == '\n'
}

/// Reading a text whose current line runs from `start` to its last
/// character, a line feed, applies that one line.
proof fn lemma_scan_line(text: Seq<char>, start: int, i: int, cfg: ConfigView)
    requires
        0 <= start <= i < text.len(),
        text.last() == '\n',
        forall|k: int| start <= k < text.len() - 1 ==> text[k] != '\n',
    ensures
        parse_from(text, start, i, cfg) == apply_directive(
            cfg,
            directive(text.subrange(start, text.len() - 1)),
        ),
    decreases text.len() - i,
{
    if i < text.len() - 1 {
        lemma_scan_line(text, start, i + 1, cfg);
    } else {
        let next = apply_directive(cfg, directive(text.subrange(start, i)));
        assert(parse_from(text, i + 1, i + 1, next) == next);
    }
}

/// Reading a text whose current line runs from `start` to the end of the
/// text, with no line feed behind it, applies that one line.
proof fn lemma_scan_open_line(text: Seq<char>, start: int, i: int, cfg: ConfigView)
    requires
        0 <= start <= i <= text.len(),
        start < text.len(),
        forall|k: int| start <= k < text.len() ==> text[k] != '\n',
    ensures
        parse_from(text, start, i, cfg) == apply_directive(
            cfg,
            directive(text.subrange(start, text.len() as int)),
        ),
    decreases text.len() - i,
{
    if i < text.len() {
        lemma_scan_open_line(text, start, i + 1, cfg);
    }
}

/// Reading `text` followed by one more line, from any place inside `text`,
/// gives what reading `text` from there gives, with the line applied to it.
/// The line ends with a line feed, or it is not empty and ends the text.
proof fn lemma_parse_from_appended(
    text: Seq<char>,
    line: Seq<char>,
    closed: bool,
    start: int,
    i: int,
    cfg: ConfigView,
)
    requires
        ends_lines(text),
        no_line_feed(line),
        closed || line.len() > 0,
        0 <= start <= i <= text.len(),
        forall|k: int| start <= k < i ==> text[k] != '\n',
    ensures
        parse_from(text + with_end(line, closed), start, i, cfg) == apply_directive(
            parse_from(text, start, i, cfg),
            directive(line),
        ),
    decreases text.len() - i,
{
    let longer = text + with_end(line, closed);
    if i < text.len() {
        assert(longer[i] == text[i]);
        if text[i] == '\n' {
            assert(longer.subrange(start, i) =~= text.subrange(start, i));
            let next = apply_directive(cfg, directive(text.subrange(start, i)));
            lemma_parse_from_appended(text, line, closed, i + 1, i + 1, next);
        } else {
            lemma_parse_from_appended(text, line, closed, start, i + 1, cfg);
        }
    } else {
        assert(start == i) by {
            if start < i {
                assert(text[i - 1] == '\n');
            }
        }
        if closed {
            assert(longer.last() == '\n');
            assert forall|k: int| start <= k < longer.len() - 1 implies longer[k] != '\n' by {
                assert(longer[k] == line[k - text.len()]);
            }
            lemma_scan_line(longer, start, i, cfg);
            assert(longer.subrange(start, longer.len() - 1) =~= line);
        } else {
            assert forall|k: int| start <= k < longer.len() implies longer[k] != '\n' by {
                assert(longer[k] == line[k - text.len()]);
            }
            lemma_scan_open_line(longer, start, i, cfg);
            assert(longer.subrange(start, longer.len() as int) =~= line);
        }
    }
}

/// A line as it stands in a text: with a line feed behind it, or, as the
/// last line, without one.
pub open spec fn with_end(line: Seq<char>, closed: bool) -> Seq<char> {
    if closed {
        line.push('\n')
    } else {
        line
    }
}

/// Lines are read one after the other: a text of whole lines followed by
/// one more line gives the configuration of the text with that line
/// applied to it. A last line needs no line feed unless it is empty.
pub proof fn lemma_parse_appended_line(text: Seq<char>, line: Seq<char>, closed: bool)
    requires
        ends_lines(text),
        no_line_feed(line),
        closed || line.len() > 0,
    ensures
        parse_config(text + with_end(line, closed)) == apply_directive(
            parse_config(text),
            directive(line),
        ),
{
    lemma_parse_from_appended(text, line, closed, 0, 0, empty_config());
}

/// A line that starts with `connect` and holds no separator behind the
/// keyword is malformed: it leaves the configuration as it was, and reading
/// goes on with the next line.
pub proof fn lemma_connect_without_separator(cfg: ConfigView, line: Seq<char>)
    requires
        "connect"@.is_prefix_of(line),
        forall|p: int| "connect"@.len() <= p ==> !separator_at(line, p),
    ensures
        directive(line) is Malformed,
        apply_directive(cfg, directive(line)) == cfg,
{
    reveal_strlit("connect");
    reveal_strlit("ignore");
    if "ignore"@.is_prefix_of(line) {
        assert(line.subrange(0, 6)[0] == 'i');
        assert(line.subrange(0, 7)[0] == 'c');
    }
    assert(forall|p: int| !sole_separator(line, "connect"@.len() as int, p));
}

/// A line that starts with `connect` and holds the separator twice behind
/// the keyword is malformed as well.
pub proof fn lemma_connect_with_two_separators(cfg: ConfigView, line: Seq<char>, p: int, q: int)
    requires
        "connect"@.is_prefix_of(line),
        "connect"@.len() <= p < q,
        separator_at(line, p),
        separator_at(line, q),
    ensures
        directive(line) is Malformed,
        apply_directive(cfg, directive(line)) == cfg,
{
    reveal_strlit("connect");
    reveal_strlit("ignore");
    if "ignore"@.is_prefix_of(line) {
        assert(line.subrange(0, 6)[0] == 'i');
        assert(line.subrange(0, 7)[0] == 'c');
    }
    assert(forall|r: int| !sole_separator(line, "connect"@.len() as int, r));
}

impl Config {
    /// The sources are distinct and each has a destination.
    pub open spec fn wf(&self) -> bool {
        routes_wf(self@.connections)
    }

    /// A configuration that holds nothing.
    pub fn new() -> (config: Config)
        ensures
            config@ == empty_config(),
            config.wf(),
    {
        let config = Config { ignore: Vec::new(), connections: Vec::new() };
        assert(config@.ignore =~= Seq::empty());
        assert(config@.connections =~= Seq::empty());
        config
    }

    /// Adds `name` to the end of the ignore list.
    pub fn add_ignore(&mut self, name: String)
        ensures
            final(self)@.ignore == old(self)@.ignore.push(name@),
            final(self)@.connections == old(self)@.connections,
    {
        self.ignore.push(name);
        assert(self@.ignore =~= old(self)@.ignore.push(name@));
    }

    /// Where the route of `source` stands, or the number of routes if it has
    /// none.
    pub fn find_source(&self, source: &String) -> (j: usize)
        ensures
            j == source_index(self@.connections, source@, 0),
            j <= self.connections.len(),
    {
        let mut j: usize = 0;
        while j < self.connections.len() && !(self.connections[j].source == *source)
            invariant
                j <= self.connections.len(),
                source_index(self@.connections, source@, 0) == source_index(
                    self@.connections,
                    source@,
                    j as int,
                ),
            decreases self.connections.len() - j,
        {
            j += 1;
        }
        j
    }

    /// Appends `dest` to the destinations of `source`; a source seen for the
    /// first time becomes the last route.
    pub fn add_connection(&mut self, source: String, dest: String)
        ensures
            old(self).wf() ==> final(self).wf(),
            final(self)@.ignore == old(self)@.ignore,
            final(self)@.connections == add_route(old(self)@.connections, source@, dest@),
    {
        let j = self.find_source(&source);
        proof {
            if self.wf() {
                lemma_add_route_wf(self@.connections, source@, dest@);
            }
        }
        if j < self.connections.len() {
            proof {
                lemma_source_index(self@.connections, source@, 0);
            }
            let mut route = self.connections.remove(j);
            let ghost before = route;
            route.dests.push(dest);
            assert(route@.dests =~= before@.dests.push(dest@));
            assert(route@.source == source@);
            self.connections.insert(j, route);
            assert(self.connections@ =~= old(self).connections@.update(j as int, route));
            assert(self@.connections =~= old(self)@.connections.update(j as int, route@));
        } else {
            let mut dests: Vec<String> = Vec::new();
            dests.push(dest);
            assert(names_view(dests@) =~= seq![dest@]);
            self.connections.push(Route { source, dests });
            assert(self@.connections =~= old(self)@.connections.push(
                RouteView { source: source@, dests: seq![dest@] },
            ));
        }
    }
}

/// Whether `chars` begins with `word`.
pub fn starts_with(chars: &Vec<char>, word: &Vec<char>) -> (r: bool)
    ensures
        r == word@.is_prefix_of(chars@),
{
    if word.len() > chars.len() {
        return false;
    }
    let mut i: usize = 0;
    while i < word.len()
        invariant
            i <= word.len() <= chars.len(),
            forall|k: int| 0 <= k < i ==> word@[k] == chars@[k],
        decreases word.len() - i,
    {
        if word[i] != chars[i] {
            assert(chars@.subrange(0, word@.len() as int)[i as int] == chars@[i as int]);
            return false;
        }
        i += 1;
    }
    assert(word@ =~= chars@.subrange(0, word@.len() as int));
    true
}

/// The first separator of `chars` at or after `from`.
pub fn find_separator(chars: &Vec<char>, from: usize) -> (found: Option<usize>)
    ensures
        match found {
            Some(p) => from <= p && separator_at(chars@, p as int) && forall|q: int|
                from <= q < p ==> !separator_at(chars@, q),
            None => forall|q: int| from <= q ==> !separator_at(chars@, q),
        },
{
    let n = chars.len();
    let mut p: usize = from;
    while p < n && p + 1 < n
        invariant
            from <= p,
            n == chars.len(),
            forall|q: int| from <= q < p ==> !separator_at(chars@, q),
        decreases n - p,
    {
        if chars[p] == '-' && chars[p + 1] == '>' {
            return Some(p);
        }
        p += 1;
    }
    None
}

/// Reads one line into `config`.
pub fn apply_line(config: &mut Config, line: &str)
    ensures
        old(config).wf() ==> final(config).wf(),
        final(config)@ == apply_directive(old(config)@, directive(line@)),
{
    let chars = chars_of(line);
    let n = chars.len();
    let ignore_word = chars_of("ignore");
    let connect_word = chars_of("connect");
    if starts_with(&chars, &ignore_word) {
        let a = find_non_space(&chars, 0, n);
        let b = find_space(&chars, a, n);
        let c = find_non_space(&chars, b, n);
        let d = find_space(&chars, c, n);
        if c < d {
            let name = String::from_str(line.substring_char(c, d));
            config.add_ignore(name);
        }
    } else if starts_with(&chars, &connect_word) {
        let k = connect_word.len();
        match find_separator(&chars, k) {
            Some(p) => {
                if find_separator(&chars, p + 1).is_none() {
                    assert(sole_separator(line@, k as int, p as int));
                    assert(forall|q: int| sole_separator(line@, k as int, q) ==> q == p);
                    let a = find_non_space(&chars, k, p);
                    let b = find_trim_end(&chars, a, p);
                    let c = find_non_space(&chars, p + 2, n);
                    let d = find_trim_end(&chars, c, n);
                    let source = String::from_str(line.substring_char(a, b));
                    let dest = String::from_str(line.substring_char(c, d));
                    config.add_connection(source, dest);
                } else {
                    assert(forall|q: int| !sole_separator(line@, k as int, q));
                }
            },
            None => {
                assert(forall|q: int| !sole_separator(line@, k as int, q));
            },
        }
    }
}

/// Reads a configuration from its text, line by line. A line that starts
/// with a keyword and is not of its form is skipped, and so is a line that
/// starts with no keyword.
pub fn load_config(text: &str) -> (config: Config)
    ensures
        config@ == parse_config(text@),
        config.wf(),
{
    let chars = chars_of(text);
    let n = chars.len();
    let mut config = Config::new();
    let mut start: usize = 0;
    let mut i: usize = 0;
    while i < n
        invariant
            chars@ == text@,
            n == chars.len(),
            start <= i <= n,
            config.wf(),
            parse_config(text@) == parse_from(text@, start as int, i as int, config@),
        decreases n - i,
    {
        if chars[i] == '\n' {
            let line = text.substring_char(start, i);
            apply_line(&mut config, line);
            start = i + 1;
        }
        i += 1;
    }
    if start < n {
        let line = text.substring_char(start, n);
        apply_line(&mut config, line);
    }
    config
}

} // verus!
