use vstd::prelude::*;
use vstd::string::*;

verus! {

/// Bytes that UTF-8 takes for `c`.
pub open spec fn utf8_width(c: char) -> nat {
    if (c as u32) < 0x80 {
        1
    } else if (c as u32) < 0x800 {
        2
    } else if (c as u32) < 0x10000 {
        3
    } else {
        4
    }
}

/// Bytes that UTF-8 takes for `s`.
pub open spec fn utf8_len(s: Seq<char>) -> nat
    decreases s.len(),
{
    if s.len() == 0 {
        0
    } else {
        utf8_len(s.drop_last()) + utf8_width(s.last())
    }
}

pub proof fn lemma_utf8_len_prefix(s: Seq<char>, i: int, j: int)
    requires
        0 <= i <= j <= s.len(),
    ensures
        utf8_len(s.take(i)) <= utf8_len(s.take(j)),
    decreases j - i,
{
    if i < j {
        lemma_utf8_len_prefix(s, i, j - 1);
        assert(s.take(j).drop_last() =~= s.take(j - 1));
    }
}

pub fn char_width(c: char) -> (r: usize)
    ensures
        r == utf8_width(c),
{
    let v = c as u32;
    if v < 0x80 {
        1
    } else if v < 0x800 {
        2
    } else if v < 0x10000 {
        3
    } else {
        4
    }
}

/// A name for what the `regex` crate finds: the first match of `pattern` in `text`, as
/// the char positions of its start and end; `None` when nothing matches or the pattern
/// does not compile.
pub uninterp spec fn regex_find(pattern: Seq<char>, text: Seq<char>) -> Option<(usize, usize)>;

/// Relies on regex::Regex::new (an error gives `None`) and
/// regex::Regex::find: the first match of `pattern` in the text after char position
/// `from`; a match lies inside the text searched.
#[verifier::external_body]
fn find_regex(pattern: &str, text: &Vec<char>, from: usize) -> (r: Option<(usize, usize)>)
    requires
        from <= text@.len(),
    ensures
        r == regex_find(pattern@, text@.skip(from as int)),
        r matches Some((a, b)) ==> a <= b <= text@.len() - from,
{
    let rest: String = text[from..].iter().collect();
    let re = regex::Regex::new(pattern).ok()?;
    let m = re.find(&rest)?;
    Some((rest[..m.start()].chars().count(), rest[..m.end()].chars().count()))
}

/// Relies on String::push: appends one char.
#[verifier::external_body]
pub fn push_char(s: &mut String, c: char)
    ensures
        final(s)@ == old(s)@.push(c),
{
    s.push(c)
}

/// Text made of the chars `text[from..to]`.
pub fn text_of(text: &Vec<char>, from: usize, to: usize) -> (r: String)
    requires
        from <= to <= text@.len(),
    ensures
        r@ == text@.subrange(from as int, to as int),
{
    let mut s = String::new();
    let mut i = from;
    while i < to
        invariant
            from <= i <= to <= text@.len(),
            s@ == text@.subrange(from as int, i as int),
        decreases to - i,
    {
        push_char(&mut s, text[i]);
        assert(text@.subrange(from as int, i + 1) =~= text@.subrange(from as int, i as int).push(text@[i as int]));
        i = i + 1;
    }
    s
}

/// A cursor over the chars of a source text that tracks its byte offset.
pub struct CStream {
    chars: Vec<char>,
    pos: usize,
    offset: usize,
}

impl CStream {
    pub closed spec fn text(&self) -> Seq<char> {
        self.chars@
    }

    /// Chars consumed so far.
    pub closed spec fn pos(&self) -> nat {
        self.pos as nat
    }

    /// Byte offset of the cursor.
    pub open spec fn offset_spec(&self) -> nat {
        utf8_len(self.text().take(self.pos() as int))
    }

    pub open spec fn rest(&self) -> Seq<char> {
        self.text().skip(self.pos() as int)
    }

    pub closed spec fn wf(&self) -> bool {
        &&& self.pos <= self.chars@.len()
        &&& self.chars@.len() <= usize::MAX
        &&& self.offset == utf8_len(self.chars@.take(self.pos as int))
        &&& utf8_len(self.chars@) <= usize::MAX
    }

    /// Byte offset of the cursor.
    pub fn offset(&self) -> (r: usize)
        requires
            self.wf(),
        ensures
            r == self.offset_spec(),
            r == utf8_len(self.text().take(self.pos() as int)),
    {
        self.offset
    }

    pub fn new(s: &str) -> (r: CStream)
        requires
            utf8_len(s@) <= usize::MAX,
        ensures
            r.wf(),
            r.text() == s@,
            r.pos() == 0,
    {
        let n = s.unicode_len();
        let mut chars: Vec<char> = Vec::new();
        let mut i: usize = 0;
        while i < n
            invariant
                n == s@.len(),
                i <= n,
                chars@ == s@.take(i as int),
            decreases n - i,
        {
            chars.push(s.get_char(i));
            assert(s@.take(i + 1) =~= s@.take(i as int).push(s@[i as int]));
            i = i + 1;
        }
        assert(s@.take(n as int) =~= s@);
        assert(chars@.take(0) =~= Seq::<char>::empty());
        CStream { chars, pos: 0, offset: 0 }
    }

    /// Steps over the next char.
    fn step(&mut self)
        requires
            old(self).wf(),
            old(self).pos() < old(self).text().len(),
        ensures
            final(self).wf(),
            final(self).text() == old(self).text(),
            final(self).pos() == old(self).pos() + 1,
    {
        proof {
            lemma_utf8_len_prefix(self.chars@, self.pos + 1, self.chars@.len() as int);
            assert(self.chars@.take(self.chars@.len() as int) =~= self.chars@);
            assert(self.chars@.take(self.pos + 1).drop_last() =~= self.chars@.take(self.pos as int));
        }
        let w = char_width(self.chars[self.pos]);
        self.offset = self.offset + w;
        self.pos = self.pos + 1;
    }

    /// Steps over `amt` chars.
    pub fn advance(&mut self, amt: usize)
        requires
            old(self).wf(),
            old(self).pos() + amt <= old(self).text().len(),
        ensures
            final(self).wf(),
            final(self).text() == old(self).text(),
            final(self).pos() == old(self).pos() + amt,
    {
        let mut k: usize = 0;
        while k < amt
            invariant
                self.wf(),
                self.text() == old(self).text(),
                self.pos() == old(self).pos() + k,
                old(self).pos() + amt <= old(self).text().len(),
                k <= amt,
            decreases amt - k,
        {
            self.step();
            k = k + 1;
        }
    }

    /// Whether chars are left.
    pub fn any(&self) -> (r: bool)
        requires
            self.wf(),
        ensures
            r == (self.pos() < self.text().len()),
    {
        self.pos < self.chars.len()
    }

    /// Consumes `s` if the rest starts with it.
    pub fn pop_string(&mut self, s: &str) -> (r: bool)
        requires
            old(self).wf(),
        ensures
            final(self).wf(),
            final(self).text() == old(self).text(),
            r == (s@.len() <= old(self).rest().len() && old(self).rest().take(s@.len() as int) == s@),
            r ==> final(self).pos() == old(self).pos() + s@.len(),
            !r ==> final(self).pos() == old(self).pos(),
    {
        let n = s.unicode_len();
        if n > self.chars.len() - self.pos {
            return false;
        }
        let mut i: usize = 0;
        while i < n
            invariant
                self.wf(),
                n == s@.len(),
                n <= self.chars@.len() - self.pos,
                i <= n,
                forall|j: int| 0 <= j < i ==> self.chars@[self.pos + j] == s@[j],
            decreases n - i,
        {
            if self.chars[self.pos + i] != s.get_char(i) {
                assert(self.rest().take(n as int)[i as int] != s@[i as int]);
                return false;
            }
            i = i + 1;
        }
        assert(self.rest().take(n as int) =~= s@);
        self.advance(n);
        true
    }

    /// Consumes and returns the next char if `f` accepts it.
    pub fn pop_cpred<F: Fn(char) -> bool>(&mut self, f: F) -> (r: Option<char>)
        requires
            old(self).wf(),
            forall|c: char| f.requires((c,)),
        ensures
            final(self).wf(),
            final(self).text() == old(self).text(),
            match r {
                Some(c) => old(self).rest().len() > 0 && c == old(self).rest()[0] && f.ensures((c,), true)
                    && final(self).pos() == old(self).pos() + 1,
                None => final(self).pos() == old(self).pos() && (old(self).rest().len() > 0 ==> f.ensures(
                    (old(self).rest()[0],),
                    false,
                )),
            },
    {
        if self.pos < self.chars.len() {
            let c = self.chars[self.pos];
            if f(c) {
                self.step();
                return Some(c);
            }
        }
        None
    }

    /// Consumes `c` if it is next.
    pub fn pop_char(&mut self, c: char) -> (r: bool)
        requires
            old(self).wf(),
        ensures
            final(self).wf(),
            final(self).text() == old(self).text(),
            r == (old(self).rest().len() > 0 && old(self).rest()[0] == c),
            r ==> final(self).pos() == old(self).pos() + 1,
            !r ==> final(self).pos() == old(self).pos(),
    {
        self.pop_cpred(|c2: char| -> (b: bool)
            ensures
                b == (c2 == c),
            { c2 == c }).is_some()
    }

    /// Consumes one whitespace char (space, tab, newline, carriage return).
    pub fn pop_ws(&mut self) -> (r: bool)
        requires
            old(self).wf(),
        ensures
            final(self).wf(),
            final(self).text() == old(self).text(),
            r == (old(self).rest().len() > 0 && is_ws(old(self).rest()[0])),
            r ==> final(self).pos() == old(self).pos() + 1,
            !r ==> final(self).pos() == old(self).pos(),
    {
        self.pop_cpred(|c: char| -> (b: bool)
            ensures
                b == is_ws(c),
            { c == ' ' || c == '\t' || c == '\n' || c == '\r' }).is_some()
    }

    /// Consumes what `pattern` matches at the cursor, if the match is not empty.
    pub fn pop_regex(&mut self, pattern: &str) -> (r: Option<String>)
        requires
            old(self).wf(),
        ensures
            final(self).wf(),
            final(self).text() == old(self).text(),
            match r {
                Some(t) => regex_find(pattern@, old(self).rest()) == Some((0usize, t@.len() as usize))
                    && t@.len() > 0 && t@ == old(self).rest().take(t@.len() as int)
                    && final(self).pos() == old(self).pos() + t@.len(),
                None => final(self).pos() == old(self).pos() && !(regex_find(pattern@, old(self).rest()) matches Some(
                    (a, b),
                ) && a == 0 && b > 0),
            },
    {
        match find_regex(pattern, &self.chars, self.pos) {
            Some((start, end)) => {
                if start == 0 && end > 0 {
                    let t = text_of(&self.chars, self.pos, self.pos + end);
                    assert(t@ =~= self.rest().take(end as int));
                    self.advance(end);
                    Some(t)
                } else {
                    None
                }
            },
            None => None,
        }
    }

    /// Consumes and returns the next char, if any.
    pub fn pop_any(&mut self) -> (r: Option<char>)
        requires
            old(self).wf(),
        ensures
            final(self).wf(),
            final(self).text() == old(self).text(),
            match r {
                Some(c) => old(self).rest().len() > 0 && c == old(self).rest()[0] && final(self).pos() == old(self).pos() + 1,
                None => old(self).rest().len() == 0 && final(self).pos() == old(self).pos(),
            },
    {
        self.pop_cpred(|c: char| -> (b: bool)
            ensures
                b,
            { true })
    }
}

pub proof fn lemma_offset_grows(cs0: CStream, cs1: CStream)
    requires
        cs0.wf(),
        cs1.wf(),
        cs0.text() == cs1.text(),
        cs0.pos() < cs1.pos(),
    ensures
        cs0.offset_spec() < cs1.offset_spec(),
{
    lemma_utf8_len_prefix(cs0.text(), cs0.pos() as int + 1, cs1.pos() as int);
    assert(cs0.text().take(cs0.pos() as int + 1).drop_last() =~= cs0.text().take(cs0.pos() as int));
}

pub proof fn lemma_offset_bound(cs: CStream)
    requires
        cs.wf(),
    ensures
        cs.offset_spec() <= utf8_len(cs.text()),
{
    lemma_utf8_len_prefix(cs.text(), cs.pos() as int, cs.text().len() as int);
    assert(cs.text().take(cs.text().len() as int) =~= cs.text());
}

pub proof fn lemma_pos_bound(cs: CStream)
    requires
        cs.wf(),
    ensures
        cs.pos() <= cs.text().len(),
{
}

pub open spec fn is_ws(c: char) -> bool {
    c == ' ' || c == '\t' || c == '\n' || c == '\r'
}

} // verus!
