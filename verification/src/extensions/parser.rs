//! Zero-copy parser for the `Sec-WebSocket-Extensions` header as specified in
//! Section 9.1 of RFC 6455.
use vstd::prelude::*;
use vstd::string::{StrSliceExecFns, StringExecFns};

verus! {

broadcast use vstd::seq_lib::group_seq_properties;

/// Error encountered when parsing the `Sec-WebSocket-Extensions` header.
#[derive(Debug, Clone, Copy, PartialEq, Eq, Structural)]
pub enum Error {
    /// No extension name was provided.
    ExpectedExtensionName,
    /// No parameter name was provided.
    ExpectedParamName,
    /// No parameter value was provided.
    ExpectedParamValue,
}

/// The description of each parse error.
pub open spec fn parse_error_text(e: Error) -> &'static str {
    match e {
        Error::ExpectedExtensionName => "no extension name provided",
        Error::ExpectedParamName => "no parameter name provided",
        Error::ExpectedParamValue => "no parameter value provided",
    }
}

impl Error {
    /// Stringify this variant.
    pub fn as_str(&self) -> (r: &'static str)
        ensures
            r@ == parse_error_text(*self)@,
    {
        match self {
            Self::ExpectedExtensionName => "no extension name provided",
            Self::ExpectedParamName => "no parameter name provided",
            Self::ExpectedParamValue => "no parameter value provided",
        }
    }
}

/// A character with the Unicode `White_Space` property, as
/// `char::is_whitespace` and `str::trim` know it.
pub open spec fn is_white_space(c: char) -> bool {
    let u = c as u32;
    ||| 9 <= u <= 13
    ||| u == 32
    ||| u == 0x85
    ||| u == 0xA0
    ||| u == 0x1680
    ||| 0x2000 <= u <= 0x200A
    ||| u == 0x2028
    ||| u == 0x2029
    ||| u == 0x202F
    ||| u == 0x205F
    ||| u == 0x3000
}

/// `s` without its leading white space.
pub open spec fn trim_start(s: Seq<char>) -> Seq<char>
    decreases s.len(),
{
    if s.len() > 0 && is_white_space(s[0]) {
        trim_start(s.drop_first())
    } else {
        s
    }
}

/// `s` without its trailing white space.
pub open spec fn trim_end(s: Seq<char>) -> Seq<char>
    decreases s.len(),
{
    if s.len() > 0 && is_white_space(s.last()) {
        trim_end(s.drop_last())
    } else {
        s
    }
}

/// `s` without its leading and trailing white space.
pub open spec fn trim(s: Seq<char>) -> Seq<char> {
    trim_end(trim_start(s))
}

/// The index of the first `c` in `s`, or the length of `s` if there is none.
pub open spec fn index_of(s: Seq<char>, c: char) -> nat
    decreases s.len(),
{
    if s.len() == 0 {
        0
    } else if s[0] == c {
        0
    } else {
        1 + index_of(s.drop_first(), c)
    }
}

/// `s` cut at the first `c`, if there is one.
pub open spec fn split_once(s: Seq<char>, c: char) -> Option<(Seq<char>, Seq<char>)> {
    let k = index_of(s, c);
    if k < s.len() {
        Some((s.take(k as int), s.skip(k as int + 1)))
    } else {
        None
    }
}

/// One step of splitting `rest` at each `d`, as `str::split` does it: `None`
/// once `finished`, otherwise the next piece, what is left after it, and
/// whether that piece was the last.
pub open spec fn split_step(rest: Seq<char>, finished: bool, d: char) -> Option<
    (Seq<char>, Seq<char>, bool),
> {
    if finished {
        None
    } else {
        match split_once(rest, d) {
            Some((piece, after)) => Some((piece, after, false)),
            None => Some((rest, Seq::empty(), true)),
        }
    }
}

/// An extension as a piece of the header lists it: its name and its
/// parameters, or the error when it has no name.
pub open spec fn extension_item(piece: Seq<char>) -> Result<(Seq<char>, Seq<char>), Error> {
    let trimmed = trim(piece);
    let (name, params) = match split_once(trimmed, ';') {
        Some((name, params)) => (name, params),
        None => (trimmed, Seq::empty()),
    };
    if name.len() == 0 {
        Err(Error::ExpectedExtensionName)
    } else {
        Ok((name, params))
    }
}

/// A parameter as a piece of an extension's parameters gives it: `None` for
/// a piece that is only white space, otherwise its name and optional value,
/// or the error when the name or value around `=` is missing.
pub open spec fn param_item(piece: Seq<char>) -> Option<
    Result<(Seq<char>, Option<Seq<char>>), Error>,
> {
    let param = trim(piece);
    if param.len() == 0 {
        None
    } else {
        match split_once(param, '=') {
            Some((key, value)) => if key.len() == 0 {
                Some(Err(Error::ExpectedParamName))
            } else if value.len() == 0 {
                Some(Err(Error::ExpectedParamValue))
            } else {
                Some(Ok((key, Some(value))))
            },
            None => Some(Ok((param, None))),
        }
    }
}

/// The first `c` is found where it is and no earlier.
proof fn lemma_index_of(s: Seq<char>, c: char, k: int)
    requires
        0 <= k <= s.len(),
        forall|j: int| 0 <= j < k ==> s[j] != c,
        k == s.len() || s[k] == c,
    ensures
        index_of(s, c) == k,
    decreases k,
{
    if k > 0 {
        assert forall|j: int| 0 <= j < k - 1 implies s.drop_first()[j] != c by {
            assert(s.drop_first()[j] == s[j + 1]);
        }
        lemma_index_of(s.drop_first(), c, k - 1);
    }
}

/// Splitting off a piece leaves less to split.
pub proof fn lemma_split_step_shrinks(rest: Seq<char>, finished: bool, d: char)
    ensures
        match split_step(rest, finished, d) {
            Some((piece, after, fin)) => after.len() + (if fin {
                0nat
            } else {
                1nat
            }) < rest.len() + (if finished {
                0nat
            } else {
                1nat
            }),
            None => true,
        },
{
}

/// Leading white space up to `k` is what `trim_start` takes away.
proof fn lemma_trim_start(s: Seq<char>, k: int)
    requires
        0 <= k <= s.len(),
        forall|j: int| 0 <= j < k ==> is_white_space(s[j]),
        k == s.len() || !is_white_space(s[k]),
    ensures
        trim_start(s) == s.skip(k),
    decreases k,
{
    if k > 0 {
        assert forall|j: int| 0 <= j < k - 1 implies is_white_space(s.drop_first()[j]) by {
            assert(s.drop_first()[j] == s[j + 1]);
        }
        lemma_trim_start(s.drop_first(), k - 1);
        assert(s.drop_first().skip(k - 1) =~= s.skip(k));
    } else {
        assert(s.skip(0) =~= s);
    }
}

/// Trailing white space from `k` on is what `trim_end` takes away.
proof fn lemma_trim_end(s: Seq<char>, k: int)
    requires
        0 <= k <= s.len(),
        forall|j: int| k <= j < s.len() ==> is_white_space(s[j]),
        k == 0 || !is_white_space(s[k - 1]),
    ensures
        trim_end(s) == s.take(k),
    decreases s.len() - k,
{
    if k < s.len() {
        assert forall|j: int| k <= j < s.drop_last().len() implies is_white_space(
            s.drop_last()[j],
        ) by {
            assert(s.drop_last()[j] == s[j]);
        }
        lemma_trim_end(s.drop_last(), k);
        assert(s.drop_last().take(k) =~= s.take(k));
    } else {
        assert(s.take(k) =~= s);
    }
}

/// Whether `c` has the Unicode `White_Space` property.
fn white_space(c: char) -> (r: bool)
    ensures
        r == is_white_space(c),
{
    let u = c as u32;
    (9 <= u && u <= 13) || u == 32 || u == 0x85 || u == 0xA0 || u == 0x1680 || (0x2000 <= u && u
        <= 0x200A) || u == 0x2028 || u == 0x2029 || u == 0x202F || u == 0x205F || u == 0x3000
}

/// The characters of `s`.
fn chars_of(s: &str) -> (r: Vec<char>)
    ensures
        r@ == s@,
{
    let n = s.unicode_len();
    let mut v: Vec<char> = Vec::new();
    let mut i: usize = 0;
    while i < n
        invariant
            n == s@.len(),
            i <= n,
            v@ == s@.take(i as int),
        decreases n - i,
    {
        v.push(s.get_char(i));
        i = i + 1;
    }
    v
}

/// The index of the first `c` in `chars[from..to]`, or `to`.
fn find_char(chars: &Vec<char>, from: usize, to: usize, c: char) -> (k: usize)
    requires
        from <= to <= chars@.len(),
    ensures
        from <= k <= to,
        k - from == index_of(chars@.subrange(from as int, to as int), c),
{
    let ghost s = chars@.subrange(from as int, to as int);
    let mut k = from;
    while k < to && chars[k] != c
        invariant
            from <= k <= to <= chars@.len(),
            s == chars@.subrange(from as int, to as int),
            forall|j: int| 0 <= j < k - from ==> s[j] != c,
        decreases to - k,
    {
        k = k + 1;
    }
    proof {
        lemma_index_of(s, c, k - from);
    }
    k
}

/// The bounds of `chars[from..to]` without its leading and trailing white
/// space.
fn trim_range(chars: &Vec<char>, from: usize, to: usize) -> (r: (usize, usize))
    requires
        from <= to <= chars@.len(),
    ensures
        from <= r.0 <= r.1 <= to,
        trim(chars@.subrange(from as int, to as int)) == chars@.subrange(r.0 as int, r.1 as int),
{
    let ghost s = chars@.subrange(from as int, to as int);
    let mut a = from;
    while a < to && white_space(chars[a])
        invariant
            from <= a <= to <= chars@.len(),
            s == chars@.subrange(from as int, to as int),
            forall|j: int| 0 <= j < a - from ==> is_white_space(s[j]),
        decreases to - a,
    {
        a = a + 1;
    }
    proof {
        lemma_trim_start(s, a - from);
        assert(s.skip(a - from) =~= chars@.subrange(a as int, to as int));
    }
    let ghost t = chars@.subrange(a as int, to as int);
    let mut b = to;
    while b > a && white_space(chars[b - 1])
        invariant
            from <= a <= b <= to <= chars@.len(),
            t == chars@.subrange(a as int, to as int),
            forall|j: int| b - a <= j < t.len() ==> is_white_space(t[j]),
        decreases b - a,
    {
        b = b - 1;
    }
    proof {
        lemma_trim_end(t, b - a);
        assert(t.take(b - a) =~= chars@.subrange(a as int, b as int));
    }
    (a, b)
}

/// Iterator over parameters of an [`Extension`].
#[derive(Debug)]
pub struct ParamsIterator<'a> {
    /// The parameters as the extension listed them.
    src: &'a str,
    /// The characters of `src`.
    chars: Vec<char>,
    /// Where the parameters not yet split off start.
    pos: usize,
    /// Where the parameters end, without trailing white space.
    end: usize,
    /// Whether the last parameter was split off.
    finished: bool,
}

impl<'a> View for ParamsIterator<'a> {
    type V = (Seq<char>, bool);

    /// The parameters not yet split off, and whether the last one was.
    closed spec fn view(&self) -> (Seq<char>, bool) {
        (self.src@.subrange(self.pos as int, self.end as int), self.finished)
    }
}

impl<'a> ParamsIterator<'a> {
    /// The positions are within the parameters.
    pub closed spec fn wf(&self) -> bool {
        &&& self.chars@ == self.src@
        &&& self.pos <= self.end <= self.chars@.len()
    }

    /// Create a new iterator over parameters specified.
    pub fn new(params: &'a str) -> (r: Self)
        ensures
            r.wf(),
            r@ == (trim(params@), false),
    {
        let chars = chars_of(params);
        let n = chars.len();
        let (a, b) = trim_range(&chars, 0, n);
        proof {
            assert(params@.subrange(0, n as int) =~= params@);
        }
        Self { src: params, chars, pos: a, end: b, finished: false }
    }

    /// Yields the next parameter: its name and optional value.
    ///
    /// Returns `None` once the parameters are exhausted, and also for a
    /// parameter that is only white space.
    pub fn next(&mut self) -> (r: Option<Result<(&'a str, Option<&'a str>), Error>>)
        requires
            old(self).wf(),
        ensures
            final(self).wf(),
            match split_step(old(self)@.0, old(self)@.1, ';') {
                None => r is None && final(self)@ == old(self)@,
                Some((piece, rest, finished)) => {
                    &&& final(self)@ == (rest, finished)
                    &&& match param_item(piece) {
                        None => r is None,
                        Some(Err(e)) => r == Some(Err::<(&'a str, Option<&'a str>), Error>(e)),
                        Some(Ok((key, value))) => r matches Some(Ok((k, v))) && k@ == key && match value {
                            Some(value) => v matches Some(v) && v@ == value,
                            None => v is None,
                        },
                    }
                },
            },
    {
        if self.finished {
            return None;
        }
        let ghost rest = self@.0;
        let from = self.pos;
        let k = find_char(&self.chars, self.pos, self.end, ';');
        if k < self.end {
            proof {
                assert(rest.take(k - from) =~= self.chars@.subrange(from as int, k as int));
                assert(rest.skip(k - from + 1) =~= self.chars@.subrange(k + 1, self.end as int));
            }
            self.pos = k + 1;
        } else {
            proof {
                assert(rest =~= self.chars@.subrange(from as int, k as int));
            }
            self.pos = self.end;
            self.finished = true;
            proof {
                assert(self@.0 =~= Seq::<char>::empty());
            }
        }
        Self::param_at(self.src, &self.chars, from, k)
    }

    /// The parameter that `chars[from..to]` holds.
    fn param_at(src: &'a str, chars: &Vec<char>, from: usize, to: usize) -> (r: Option<
        Result<(&'a str, Option<&'a str>), Error>,
    >)
        requires
            chars@ == src@,
            from <= to <= chars@.len(),
        ensures
            match param_item(chars@.subrange(from as int, to as int)) {
                None => r is None,
                Some(Err(e)) => r == Some(Err::<(&'a str, Option<&'a str>), Error>(e)),
                Some(Ok((key, value))) => r matches Some(Ok((k, v))) && k@ == key && match value {
                    Some(value) => v matches Some(v) && v@ == value,
                    None => v is None,
                },
            },
    {
        let ghost piece = chars@.subrange(from as int, to as int);
        let (a, b) = trim_range(chars, from, to);
        let ghost param = chars@.subrange(a as int, b as int);
        if a == b {
            return None;
        }
        let k = find_char(chars, a, b, '=');
        if k < b {
            proof {
                assert(param.take(k - a) =~= chars@.subrange(a as int, k as int));
                assert(param.skip(k - a + 1) =~= chars@.subrange(k + 1, b as int));
            }
            if k == a {
                return Some(Err(Error::ExpectedParamName));
            }
            if k + 1 == b {
                return Some(Err(Error::ExpectedParamValue));
            }
            let key = src.substring_char(a, k);
            let value = src.substring_char(k + 1, b);
            Some(Ok((key, Some(value))))
        } else {
            Some(Ok((src.substring_char(a, b), None)))
        }
    }
}

/// A proposed extension with optional parameters.
#[derive(Debug)]
pub struct Extension<'a> {
    /// The name of the extension.
    pub name: &'a str,
    /// The parameters proposed for it.
    pub params: ParamsIterator<'a>,
}

/// Iterator over [`Extension`]s in a `Sec-WebSocket-Extensions` header.
#[derive(Debug)]
pub struct ExtensionIterator<'a> {
    /// The header value.
    src: &'a str,
    /// The characters of `src`.
    chars: Vec<char>,
    /// Where the extensions not yet split off start.
    pos: usize,
    /// Whether the last extension was split off.
    finished: bool,
}

impl<'a> View for ExtensionIterator<'a> {
    type V = (Seq<char>, bool);

    /// The header not yet split off, and whether the last extension was.
    closed spec fn view(&self) -> (Seq<char>, bool) {
        (self.src@.subrange(self.pos as int, self.src@.len() as int), self.finished)
    }
}

impl<'a> ExtensionIterator<'a> {
    /// The position is within the header.
    pub closed spec fn wf(&self) -> bool {
        &&& self.chars@ == self.src@
        &&& self.pos <= self.chars@.len()
    }

    /// Create a new iterator over extensions in a `Sec-WebSocket-Extensions`
    /// header.
    pub fn new(header: &'a str) -> (r: Self)
        ensures
            r.wf(),
            r@ == (header@, false),
    {
        let chars = chars_of(header);
        proof {
            assert(header@.subrange(0, header@.len() as int) =~= header@);
        }
        ExtensionIterator { src: header, chars, pos: 0, finished: false }
    }

    /// Yields the next extension, with an iterator over its parameters.
    ///
    /// Returns `None` once the header is exhausted.
    pub fn next(&mut self) -> (r: Option<Result<Extension<'a>, Error>>)
        requires
            old(self).wf(),
        ensures
            final(self).wf(),
            match split_step(old(self)@.0, old(self)@.1, ',') {
                None => r is None && final(self)@ == old(self)@,
                Some((piece, rest, finished)) => {
                    &&& final(self)@ == (rest, finished)
                    &&& match extension_item(piece) {
                        Err(e) => r matches Some(Err(e2)) && e2 == e,
                        Ok((name, params)) => r matches Some(Ok(ext)) && ext.name@ == name
                            && ext.params.wf() && ext.params@ == (trim(params), false),
                    }
                },
            },
    {
        if self.finished {
            return None;
        }
        let ghost rest = self@.0;
        let n = self.chars.len();
        let from = self.pos;
        let k = find_char(&self.chars, self.pos, n, ',');
        if k < n {
            proof {
                assert(rest.take(k - from) =~= self.chars@.subrange(from as int, k as int));
                assert(rest.skip(k - from + 1) =~= self.chars@.subrange(k + 1, n as int));
            }
            self.pos = k + 1;
        } else {
            proof {
                assert(rest =~= self.chars@.subrange(from as int, k as int));
            }
            self.pos = n;
            self.finished = true;
            proof {
                assert(self@.0 =~= Seq::<char>::empty());
            }
        }
        Some(Self::extension_at(self.src, &self.chars, from, k))
    }

    /// The extension that `chars[from..to]` holds.
    fn extension_at(src: &'a str, chars: &Vec<char>, from: usize, to: usize) -> (r: Result<
        Extension<'a>,
        Error,
    >)
        requires
            chars@ == src@,
            from <= to <= chars@.len(),
        ensures
            match extension_item(chars@.subrange(from as int, to as int)) {
                Err(e) => r matches Err(e2) && e2 == e,
                Ok((name, params)) => r matches Ok(ext) && ext.name@ == name && ext.params.wf()
                    && ext.params@ == (trim(params), false),
            },
    {
        let (a, b) = trim_range(chars, from, to);
        let ghost trimmed = chars@.subrange(a as int, b as int);
        let k = find_char(chars, a, b, ';');
        let name = src.substring_char(a, k);
        let params = if k < b {
            proof {
                assert(trimmed.take(k - a) =~= chars@.subrange(a as int, k as int));
                assert(trimmed.skip(k - a + 1) =~= chars@.subrange(k + 1, b as int));
            }
            src.substring_char(k + 1, b)
        } else {
            proof {
                assert(trimmed =~= chars@.subrange(a as int, k as int));
            }
            src.substring_char(b, b)
        };
        if k == a {
            return Err(Error::ExpectedExtensionName);
        }
        Ok(Extension { name, params: ParamsIterator::new(params) })
    }
}

/// A proposal for the `Sec-WebSocket-Extensions` header: an extension name,
/// followed by the parameters added to it.
pub struct Proposal {
    /// The text so far.
    text: String,
}

impl View for Proposal {
    type V = Seq<char>;

    /// The text so far.
    closed spec fn view(&self) -> Seq<char> {
        self.text@
    }
}

/// A parameter as written in a header: the name and, if there is one, `=`
/// and the value.
pub open spec fn item_text(key: Seq<char>, value: Option<Seq<char>>) -> Seq<char> {
    key + match value {
        Some(v) => seq!['='] + v,
        None => Seq::empty(),
    }
}

/// The text a parameter adds to a proposal: `"; "` and the parameter.
pub open spec fn param_text(key: Seq<char>, value: Option<Seq<char>>) -> Seq<char> {
    seq![';', ' '] + item_text(key, value)
}

/// The value of an optional string slice.
pub open spec fn opt_str_view(value: Option<&str>) -> Option<Seq<char>> {
    match value {
        Some(v) => Some(v@),
        None => None,
    }
}

impl Proposal {
    /// Starts a proposal for the extension `extension_name`.
    pub fn new(extension_name: &'static str) -> (r: Self)
        ensures
            r@ == extension_name@,
    {
        Self { text: String::from_str(extension_name) }
    }

    /// Adds a parameter, with an optional value.
    pub fn add_param(&mut self, key: &str, value: Option<&str>)
        ensures
            final(self)@ == old(self)@ + param_text(key@, opt_str_view(value)),
    {
        proof {
            reveal_strlit("; ");
            reveal_strlit("=");
        }
        let ghost start = self.text@;
        self.text.append("; ");
        self.text.append(key);
        if let Some(value) = value {
            self.text.append("=");
            self.text.append(value);
        }
        proof {
            assert(self.text@ =~= start + param_text(key@, opt_str_view(value)));
        }
    }

    /// The text of the proposal.
    pub fn finish(self) -> (r: String)
        ensures
            r@ == self@,
    {
        self.text
    }
}


/// A token of the header grammar: not empty, without white space and
/// without `;`, `,` or `=`.
pub open spec fn is_token(s: Seq<char>) -> bool {
    &&& s.len() > 0
    &&& forall|i: int|
        0 <= i < s.len() ==> !is_white_space(#[trigger] s[i]) && s[i] != ';' && s[i] != ','
            && s[i] != '='
}

/// A parameter whose name, and value if it has one, are tokens.
pub open spec fn is_token_param(p: (Seq<char>, Option<Seq<char>>)) -> bool {
    &&& is_token(p.0)
    &&& p.1 matches Some(v) ==> is_token(v)
}

/// The text that adding the parameters `ps` in order puts after the
/// extension name of a proposal.
pub open spec fn params_text(ps: Seq<(Seq<char>, Option<Seq<char>>)>) -> Seq<char>
    decreases ps.len(),
{
    if ps.len() == 0 {
        Seq::empty()
    } else {
        param_text(ps[0].0, ps[0].1) + params_text(ps.drop_first())
    }
}

/// The items a parameter iterator in the state `(rest, finished)` yields,
/// in order, up to the first `None`.
pub open spec fn parsed_params(rest: Seq<char>, finished: bool) -> Seq<
    Result<(Seq<char>, Option<Seq<char>>), Error>,
>
    decreases rest.len() + (if finished {
        0nat
    } else {
        1nat
    }),
{
    match split_step(rest, finished, ';') {
        None => Seq::empty(),
        Some((piece, after, fin)) => match param_item(piece) {
            None => Seq::empty(),
            Some(item) => seq![item] + parsed_params(after, fin),
        },
    }
}

/// The characters of a parameter's text: none is `;` or `,`, and it starts
/// and ends with a character that is not white space.
proof fn lemma_item_text_chars(p: (Seq<char>, Option<Seq<char>>))
    requires
        is_token_param(p),
    ensures
        ({
            let t = item_text(p.0, p.1);
            &&& t.len() > 0
            &&& !is_white_space(t[0])
            &&& !is_white_space(t.last())
            &&& forall|i: int| 0 <= i < t.len() ==> #[trigger] t[i] != ';' && t[i] != ','
        }),
{
    let t = item_text(p.0, p.1);
    assert(t[0] == p.0[0]);
    match p.1 {
        Some(v) => {
            assert(t.last() == v.last());
            assert forall|i: int| 0 <= i < t.len() implies #[trigger] t[i] != ';' && t[i] != ',' by {
                if i < p.0.len() {
                    assert(t[i] == p.0[i]);
                } else if i > p.0.len() {
                    assert(t[i] == v[i - p.0.len() - 1]);
                }
            }
        },
        None => {
            assert(t =~= p.0);
        },
    }
}

/// The text of token parameters has no `,`, and, unless empty, ends with a
/// character that is not white space.
proof fn lemma_params_text_chars(ps: Seq<(Seq<char>, Option<Seq<char>>)>)
    requires
        forall|i: int| 0 <= i < ps.len() ==> is_token_param(#[trigger] ps[i]),
    ensures
        forall|i: int| 0 <= i < params_text(ps).len() ==> #[trigger] params_text(ps)[i] != ',',
        ps.len() > 0 ==> !is_white_space(params_text(ps).last()),
    decreases ps.len(),
{
    if ps.len() > 0 {
        let rest = ps.drop_first();
        assert forall|i: int| 0 <= i < rest.len() implies is_token_param(#[trigger] rest[i]) by {
            assert(rest[i] == ps[i + 1]);
        }
        lemma_params_text_chars(rest);
        lemma_item_text_chars(ps[0]);
        let it = item_text(ps[0].0, ps[0].1);
        let t = params_text(ps);
        let tr = params_text(rest);
        assert(t =~= seq![';', ' '] + it + tr);
        assert forall|i: int| 0 <= i < t.len() implies #[trigger] t[i] != ',' by {
            if 2 <= i < 2 + it.len() {
                assert(t[i] == it[i - 2]);
            } else if i >= 2 + it.len() {
                assert(t[i] == tr[i - 2 - it.len()]);
            }
        }
        if rest.len() > 0 {
            assert(t.last() == tr.last());
        } else {
            assert(t.last() == it.last());
        }
    }
}

/// Parsing the parameters `ps` as written after the first `"; "`, with
/// white space `lead` before them, gives back exactly `ps`.
proof fn lemma_parse_items(ps: Seq<(Seq<char>, Option<Seq<char>>)>, lead: Seq<char>)
    requires
        ps.len() > 0,
        forall|i: int| 0 <= i < ps.len() ==> is_token_param(#[trigger] ps[i]),
        forall|i: int| 0 <= i < lead.len() ==> is_white_space(#[trigger] lead[i]) && lead[i] != ';',
    ensures
        parsed_params(lead + item_text(ps[0].0, ps[0].1) + params_text(ps.drop_first()), false)
            == ps.map_values(|p: (Seq<char>, Option<Seq<char>>)| Ok::<_, Error>(p)),
    decreases ps.len(),
{
    let p0 = ps[0];
    let rest = ps.drop_first();
    let it = item_text(p0.0, p0.1);
    let tr = params_text(rest);
    let s = lead + it + tr;
    let k: int = (lead.len() + it.len()) as int;
    lemma_item_text_chars(p0);
    assert forall|i: int| 0 <= i < rest.len() implies is_token_param(#[trigger] rest[i]) by {
        assert(rest[i] == ps[i + 1]);
    }
    assert forall|j: int| 0 <= j < k implies s[j] != ';' by {
        if j < lead.len() {
            assert(s[j] == lead[j]);
        } else {
            assert(s[j] == it[j - lead.len()]);
        }
    }
    let piece = lead + it;
    // The parameter in the piece, once trimmed.
    assert(trim(piece) == it) by {
        assert forall|j: int| 0 <= j < lead.len() implies is_white_space(piece[j]) by {
            assert(piece[j] == lead[j]);
        }
        assert(piece[lead.len() as int] == it[0]);
        lemma_trim_start(piece, lead.len() as int);
        assert(piece.skip(lead.len() as int) =~= it);
        lemma_trim_end(it, it.len() as int);
        assert(it.take(it.len() as int) =~= it);
    }
    let item = match p0.1 {
        Some(v) => {
            let kl = p0.0.len();
            assert forall|j: int| 0 <= j < kl implies it[j] != '=' by {
                assert(it[j] == p0.0[j]);
            }
            assert(it[kl as int] == '=');
            lemma_index_of(it, '=', kl as int);
            assert(it.take(kl as int) =~= p0.0);
            assert(it.skip(kl as int + 1) =~= v);
            Ok::<_, Error>(p0)
        },
        None => {
            assert(it =~= p0.0);
            lemma_index_of(it, '=', it.len() as int);
            Ok::<_, Error>(p0)
        },
    };
    assert(param_item(piece) == Some(item));
    let mapped = ps.map_values(|p: (Seq<char>, Option<Seq<char>>)| Ok::<_, Error>(p));
    let mapped_rest = rest.map_values(|p: (Seq<char>, Option<Seq<char>>)| Ok::<_, Error>(p));
    assert(mapped =~= seq![item] + mapped_rest);
    if rest.len() > 0 {
        let p1 = rest[0];
        let it1 = item_text(p1.0, p1.1);
        assert(tr =~= seq![';', ' '] + it1 + params_text(rest.drop_first()));
        assert(s[k] == ';');
        lemma_index_of(s, ';', k);
        assert(s.take(k) =~= piece);
        let after = s.skip(k + 1);
        assert(after =~= seq![' '] + it1 + params_text(rest.drop_first()));
        let sp: Seq<char> = seq![' '];
        assert(is_white_space(sp[0]));
        lemma_parse_items(rest, sp);
    } else {
        assert(tr =~= Seq::<char>::empty());
        assert(s =~= piece);
        lemma_index_of(s, ';', s.len() as int);
        let e: Seq<char> = Seq::empty();
        assert(parsed_params(e, true) =~= Seq::empty());
        assert(mapped_rest =~= Seq::empty());
    }
}

/// A proposal reads back as what was put into it: the extension name
/// `name` followed by the parameters `ps`, each added as
/// [`Proposal::add_param`] writes it, is a header of exactly one extension,
/// with that name, whose parameter iterator yields exactly `ps` in order.
pub proof fn lemma_proposal_round_trip(name: Seq<char>, ps: Seq<(Seq<char>, Option<Seq<char>>)>)
    requires
        is_token(name),
        forall|i: int| 0 <= i < ps.len() ==> is_token_param(#[trigger] ps[i]),
    ensures
        ({
            let h = name + params_text(ps);
            &&& split_step(h, false, ',') == Some((h, Seq::<char>::empty(), true))
            &&& extension_item(h) matches Ok((n, params)) && n == name && parsed_params(
                trim(params),
                false,
            ) == ps.map_values(|p: (Seq<char>, Option<Seq<char>>)| Ok::<_, Error>(p))
        }),
{
    let t = params_text(ps);
    let h = name + t;
    let nl = name.len() as int;
    lemma_params_text_chars(ps);
    assert forall|j: int| 0 <= j < h.len() implies h[j] != ',' by {
        if j < nl {
            assert(h[j] == name[j]);
        } else {
            assert(h[j] == t[j - nl]);
        }
    }
    lemma_index_of(h, ',', h.len() as int);
    // The header has no white space around it.
    assert(trim(h) == h) by {
        assert(h[0] == name[0]);
        lemma_trim_start(h, 0);
        assert(h.skip(0) =~= h);
        if ps.len() > 0 {
            assert(h.last() == t.last());
        } else {
            assert(h.last() == name.last());
        }
        lemma_trim_end(h, h.len() as int);
        assert(h.take(h.len() as int) =~= h);
    }
    assert forall|j: int| 0 <= j < nl implies h[j] != ';' by {
        assert(h[j] == name[j]);
    }
    let mapped = ps.map_values(|p: (Seq<char>, Option<Seq<char>>)| Ok::<_, Error>(p));
    if ps.len() > 0 {
        let it = item_text(ps[0].0, ps[0].1);
        let tr = params_text(ps.drop_first());
        assert(t =~= seq![';', ' '] + it + tr);
        assert(h[nl] == ';');
        lemma_index_of(h, ';', nl);
        assert(h.take(nl) =~= name);
        let params = h.skip(nl + 1);
        assert(params =~= seq![' '] + it + tr);
        lemma_item_text_chars(ps[0]);
        // The parameters without the space before them.
        assert(trim(params) == it + tr) by {
            assert(is_white_space(params[0]));
            assert(params[1] == it[0]);
            lemma_trim_start(params, 1);
            assert(params.skip(1) =~= it + tr);
            let q = it + tr;
            if ps.drop_first().len() > 0 {
                assert forall|i: int| 0 <= i < ps.drop_first().len() implies is_token_param(
                    #[trigger] ps.drop_first()[i],
                ) by {
                    assert(ps.drop_first()[i] == ps[i + 1]);
                }
                lemma_params_text_chars(ps.drop_first());
                assert(q.last() == tr.last());
            } else {
                assert(q.last() == it.last());
            }
            lemma_trim_end(q, q.len() as int);
            assert(q.take(q.len() as int) =~= q);
        }
        let e: Seq<char> = Seq::empty();
        lemma_parse_items(ps, e);
        assert(e + it + tr =~= it + tr);
    } else {
        assert(t =~= Seq::<char>::empty());
        assert(h =~= name);
        lemma_index_of(h, ';', h.len() as int);
        let e: Seq<char> = Seq::empty();
        assert(trim_start(e) =~= e);
        assert(trim_end(e) =~= e);
        assert(parsed_params(e, true) =~= Seq::empty());
        assert(param_item(e) is None);
        assert(mapped =~= Seq::empty());
    }
}

} // verus!
