use vstd::prelude::*;
use vstd::std_specs::iter::IteratorSpec;
use vstd::string::StringExecFns;
use vstd::string::StringSliceAdditionalSpecFns;
use vstd::utf8::encode_utf8;

verus! {

broadcast use vstd::string::group_string_axioms;

/// How many characters a `TinyString` can hold.
pub const FIXED_CHAR_BUFFER_SIZE: usize = 128;

/// A string of at most `FIXED_CHAR_BUFFER_SIZE` characters stored inline.
/// The first `cursor` characters of `buffer` are the string.
#[derive(Copy, Clone)]
pub struct TinyString {
    pub buffer: [char; FIXED_CHAR_BUFFER_SIZE],
    pub cursor: usize,
}

impl View for TinyString {
    type V = Seq<char>;

    /// The characters of the string: the buffer up to the cursor.
    open spec fn view(&self) -> Seq<char> {
        self.buffer@.subrange(0, self.cursor as int)
    }
}

/// The number of bytes of the UTF-8 encoding of `s`, which is what `str::len` counts.
pub open spec fn byte_len(s: &str) -> nat {
    s.spec_bytes().len()
}

/// `t` holds exactly the characters of `s`, and `s` has one byte per character,
/// which is when `TinyString::is_samestr` reports a match.
pub open spec fn same_as_str(t: TinyString, s: &str) -> bool {
    &&& t.cursor == byte_len(s)
    &&& t.cursor <= FIXED_CHAR_BUFFER_SIZE
    &&& t@ == s@
}

/// The inputs on which `TinyString::is_samestr` runs out of characters or out of
/// buffer: the cursor equals the byte length of `s`, and every character that can
/// be compared matches, but there are fewer of them than the cursor.
pub open spec fn samestr_overruns(t: TinyString, s: &str) -> bool {
    let m = if s@.len() < FIXED_CHAR_BUFFER_SIZE { s@.len() } else { FIXED_CHAR_BUFFER_SIZE as nat };
    &&& t.cursor == byte_len(s)
    &&& m < t.cursor
    &&& t.buffer@.subrange(0, m as int) == s@.subrange(0, m as int)
}

/// How many characters `copystr` takes from `s`.
pub open spec fn copied_count(s: Seq<char>) -> nat {
    if s.len() < FIXED_CHAR_BUFFER_SIZE { s.len() } else { FIXED_CHAR_BUFFER_SIZE as nat }
}

/// A UTF-8 encoding has at least one byte per character.
pub proof fn lemma_chars_le_bytes(s: Seq<char>)
    ensures
        s.len() <= encode_utf8(s).len(),
    decreases s.len(),
{
    if s.len() > 0 {
        lemma_chars_le_bytes(s.drop_first());
    }
}

/// One call that changes a `TinyString`: `push` of a character, `copystr` of a
/// string with these characters, `copy` from another string, or a write of a
/// character at an index through `get_mut`.
pub enum TinyEdit {
    Push(char),
    CopyStr(Seq<char>),
    Copy(TinyString),
    Write(int, char),
}

/// `after` is what the call `e` makes of `before`, on an input that the call accepts.
pub open spec fn edited(before: TinyString, after: TinyString, e: TinyEdit) -> bool {
    match e {
        TinyEdit::Push(c) => if before.cursor >= FIXED_CHAR_BUFFER_SIZE {
            after == before
        } else {
            &&& after.cursor == before.cursor + 1
            &&& after.buffer@ == before.buffer@.update(before.cursor as int, c)
        },
        TinyEdit::CopyStr(s) => {
            let k = copied_count(s);
            &&& k == 0 || before.cursor + k <= FIXED_CHAR_BUFFER_SIZE
            &&& after.cursor == before.cursor + k
            &&& k > 0 ==> after.buffer@ == before.buffer@.subrange(0, before.cursor as int)
                + s.subrange(0, k as int)
                + before.buffer@.subrange(before.cursor + k, FIXED_CHAR_BUFFER_SIZE as int)
            &&& k == 0 ==> after.buffer@ == before.buffer@
        },
        TinyEdit::Copy(src) => {
            &&& src.cursor <= FIXED_CHAR_BUFFER_SIZE
            &&& after.cursor == before.cursor
            &&& after.buffer@ == src.buffer@.subrange(0, src.cursor as int)
                + before.buffer@.subrange(src.cursor as int, FIXED_CHAR_BUFFER_SIZE as int)
        },
        TinyEdit::Write(index, c) => {
            &&& 0 <= index < FIXED_CHAR_BUFFER_SIZE
            &&& after.cursor == before.cursor
            &&& after.buffer@ == before.buffer@.update(index, c)
        },
    }
}

/// How many characters the call `e` appends to `before`: one for a push that
/// succeeds, what `copystr` takes, none otherwise.
pub open spec fn appended(before: TinyString, e: TinyEdit) -> nat {
    match e {
        TinyEdit::Push(_) => if before.cursor < FIXED_CHAR_BUFFER_SIZE { 1 } else { 0 },
        TinyEdit::CopyStr(s) => copied_count(s),
        TinyEdit::Copy(_) => 0,
        TinyEdit::Write(_, _) => 0,
    }
}

/// The characters appended by the first `n` calls of a history.
pub open spec fn appended_total(states: Seq<TinyString>, edits: Seq<TinyEdit>, n: int) -> nat
    decreases n,
{
    if n <= 0 {
        0
    } else {
        appended_total(states, edits, n - 1) + appended(states[n - 1], edits[n - 1])
    }
}

/// `states[i + 1]` is what `edits[i]` makes of `states[i]`, for each call of the history.
pub open spec fn is_history(states: Seq<TinyString>, edits: Seq<TinyEdit>) -> bool {
    &&& states.len() == edits.len() + 1
    &&& forall|i: int| 0 <= i < edits.len() ==> edited(states[i], states[i + 1], #[trigger] edits[i])
}

/// Over any history of calls that starts from an empty string, as `TinyString::new`
/// makes it, every string of the history has its cursor inside the buffer, and its
/// length is the number of characters that the successful pushes and the calls of
/// `copystr` before it appended.
pub proof fn lemma_history_len(states: Seq<TinyString>, edits: Seq<TinyEdit>, k: int)
    requires
        is_history(states, edits),
        states[0].cursor == 0,
        0 <= k < states.len(),
    ensures
        states[k].wf(),
        states[k].cursor == appended_total(states, edits, k),
    decreases k,
{
    if k > 0 {
        lemma_history_len(states, edits, k - 1);
        let e = edits[k - 1];
        assert(edited(states[k - 1], states[k], e));
    }
}

impl TinyString {
    /// The cursor lies inside the buffer.
    pub open spec fn wf(&self) -> bool {
        self.cursor <= FIXED_CHAR_BUFFER_SIZE
    }

    pub fn new() -> (t: TinyString)
        ensures
            t.cursor == 0,
            t.buffer@ == Seq::new(FIXED_CHAR_BUFFER_SIZE as nat, |i: int| '\0'),
            t@ == Seq::<char>::empty(),
            t.wf(),
    {
        let t = TinyString { buffer: ['\0'; FIXED_CHAR_BUFFER_SIZE], cursor: 0 };
        assert(t.buffer@ =~= Seq::new(FIXED_CHAR_BUFFER_SIZE as nat, |i: int| '\0'));
        t
    }

    pub fn get(&self, index: usize) -> (c: &char)
        requires
            index < FIXED_CHAR_BUFFER_SIZE,
        ensures
            *c == self.buffer@[index as int],
    {
        &self.buffer[index]
    }

    pub fn get_mut(&mut self, index: usize) -> (c: &mut char)
        requires
            index < FIXED_CHAR_BUFFER_SIZE,
        ensures
            *c == old(self).buffer@[index as int],
            final(self).buffer@ == old(self).buffer@.update(index as int, *final(c)),
            final(self).cursor == old(self).cursor,
            edited(*old(self), *final(self), TinyEdit::Write(index as int, *final(c))),
    {
        &mut self.buffer[index]
    }

    pub fn len(&self) -> (n: usize)
        ensures
            n == self.cursor,
    {
        self.cursor
    }

    /// Appends `c`, or fails when the buffer is full.
    pub fn push(&mut self, c: char) -> (r: Result<(), String>)
        ensures
            old(self).cursor >= FIXED_CHAR_BUFFER_SIZE ==> {
                &&& r is Err
                &&& r->Err_0@ == "Out sized tinystring"@
                &&& *final(self) == *old(self)
            },
            old(self).cursor < FIXED_CHAR_BUFFER_SIZE ==> {
                &&& r is Ok
                &&& final(self).cursor == old(self).cursor + 1
                &&& final(self).buffer@ == old(self).buffer@.update(old(self).cursor as int, c)
                &&& final(self)@ == old(self)@.push(c)
            },
            old(self).wf() ==> final(self).wf(),
            edited(*old(self), *final(self), TinyEdit::Push(c)),
    {
        if self.len() >= FIXED_CHAR_BUFFER_SIZE {
            return Err(String::from_str("Out sized tinystring"));
        }
        let i = self.cursor;
        self.buffer[i] = c;
        self.cursor = i + 1;
        assert(self@ =~= old(self)@.push(c));
        Ok(())
    }

    /// Appends the first characters of `s`, at most `FIXED_CHAR_BUFFER_SIZE` of them.
    pub fn copystr(&mut self, s: &str)
        requires
            copied_count(s@) == 0 || old(self).cursor + copied_count(s@) <= FIXED_CHAR_BUFFER_SIZE,
        ensures
            final(self).cursor == old(self).cursor + copied_count(s@),
            copied_count(s@) > 0 ==> final(self).buffer@ == old(self).buffer@.subrange(0, old(self).cursor as int)
                + s@.subrange(0, copied_count(s@) as int)
                + old(self).buffer@.subrange(old(self).cursor + copied_count(s@), FIXED_CHAR_BUFFER_SIZE as int),
            copied_count(s@) == 0 ==> final(self).buffer@ == old(self).buffer@,
            old(self).wf() ==> final(self).wf(),
            edited(*old(self), *final(self), TinyEdit::CopyStr(s@)),
    {
        let ghost c0 = self.cursor as int;
        let ghost b0 = self.buffer@;
        let ghost k = copied_count(s@) as int;
        let mut chars = s.chars();
        let mut n: usize = 0;
        while n < FIXED_CHAR_BUFFER_SIZE
            invariant_except_break
                chars.obeys_prophetic_iter_laws(),
                chars.remaining() == s@.subrange(n as int, s@.len() as int),
                n <= s@.len(),
                n <= FIXED_CHAR_BUFFER_SIZE,
            invariant
                k == copied_count(s@),
                k == 0 || c0 + k <= FIXED_CHAR_BUFFER_SIZE,
                n <= k,
                self.cursor == c0 + n,
                self.buffer@.len() == FIXED_CHAR_BUFFER_SIZE,
                forall|j: int| 0 <= j < FIXED_CHAR_BUFFER_SIZE ==> #[trigger] self.buffer@[j]
                    == if c0 <= j < c0 + n { s@[j - c0] } else { b0[j] },
            ensures
                n == k,
                self.cursor == c0 + n,
                forall|j: int| 0 <= j < FIXED_CHAR_BUFFER_SIZE ==> #[trigger] self.buffer@[j]
                    == if c0 <= j < c0 + n { s@[j - c0] } else { b0[j] },
            decreases FIXED_CHAR_BUFFER_SIZE - n,
        {
            match chars.next() {
                Some(c) => {
                    let i = self.cursor;
                    self.buffer[i] = c;
                    self.cursor = i + 1;
                }
                None => {
                    break;
                }
            }
            n = n + 1;
        }
        proof {
            if k > 0 {
                assert(self.buffer@ =~= b0.subrange(0, c0) + s@.subrange(0, k) + b0.subrange(c0 + k, FIXED_CHAR_BUFFER_SIZE as int));
            } else {
                assert(self.buffer@ =~= b0);
            }
        }
    }

    /// Overwrites the first `s.len()` characters with those of `s`; the cursor stays.
    pub fn copy(&mut self, s: &TinyString)
        requires
            s.cursor <= FIXED_CHAR_BUFFER_SIZE,
        ensures
            final(self).cursor == old(self).cursor,
            final(self).buffer@ == s.buffer@.subrange(0, s.cursor as int)
                + old(self).buffer@.subrange(s.cursor as int, FIXED_CHAR_BUFFER_SIZE as int),
            edited(*old(self), *final(self), TinyEdit::Copy(*s)),
    {
        let ghost b0 = self.buffer@;
        let n = s.len();
        let mut i: usize = 0;
        while i < n
            invariant
                n == s.cursor,
                n <= FIXED_CHAR_BUFFER_SIZE,
                i <= n,
                self.cursor == old(self).cursor,
                self.buffer@.len() == FIXED_CHAR_BUFFER_SIZE,
                forall|j: int| 0 <= j < FIXED_CHAR_BUFFER_SIZE ==> #[trigger] self.buffer@[j]
                    == if j < i { s.buffer@[j] } else { b0[j] },
            decreases n - i,
        {
            let c = *s.get(i);
            self.buffer[i] = c;
            i = i + 1;
        }
        assert(self.buffer@ =~= s.buffer@.subrange(0, s.cursor as int)
            + b0.subrange(s.cursor as int, FIXED_CHAR_BUFFER_SIZE as int));
    }

    /// Whether this string holds exactly the characters of `s`. The lengths compared
    /// are the character count here and the byte count of `s`, so a string with a
    /// character outside ASCII never matches.
    pub fn is_samestr(&self, s: &str) -> (r: bool)
        requires
            !samestr_overruns(*self, s),
        ensures
            r == same_as_str(*self, s),
    {
        proof {
            lemma_chars_le_bytes(s@);
        }
        let mut chars = s.chars();
        let byte_count = s.as_bytes().len();
        if self.len() != byte_count {
            return false;
        }
        let n = self.len();
        let mut i: usize = 0;
        while i < n
            invariant
                chars.obeys_prophetic_iter_laws(),
                chars.remaining() == s@.subrange(i as int, s@.len() as int),
                n == self.cursor,
                n == byte_len(s),
                s@.len() <= n,
                i <= n,
                i <= s@.len(),
                i <= FIXED_CHAR_BUFFER_SIZE,
                !samestr_overruns(*self, s),
                forall|j: int| 0 <= j < i ==> self.buffer@[j] == s@[j],
            decreases n - i,
        {
            proof {
                if i >= FIXED_CHAR_BUFFER_SIZE || i >= s@.len() {
                    let m = if s@.len() < FIXED_CHAR_BUFFER_SIZE { s@.len() } else { FIXED_CHAR_BUFFER_SIZE as nat };
                    assert(m == i);
                    assert(self.buffer@.subrange(0, m as int) =~= s@.subrange(0, m as int));
                    assert(false);
                }
            }
            let c = *self.get(i);
            let d = chars.next();
            match d {
                Some(d) => {
                    if c != d {
                        return false;
                    }
                }
                None => {
                    assert(false);
                    return false;
                }
            }
            i = i + 1;
        }
        assert(s@.len() == n) by {
            if s@.len() < n {
                let m = if s@.len() < FIXED_CHAR_BUFFER_SIZE { s@.len() } else { FIXED_CHAR_BUFFER_SIZE as nat };
                assert(self.buffer@.subrange(0, m as int) =~= s@.subrange(0, m as int));
            }
        }
        assert(self@ =~= s@);
        true
    }

    /// Whether both strings have the same length and the same characters.
    pub fn is_same(&self, s: &TinyString) -> (r: bool)
        requires
            !(self.cursor == s.cursor && self.cursor > FIXED_CHAR_BUFFER_SIZE && self.buffer@ == s.buffer@),
        ensures
            r == (self.cursor == s.cursor && self.cursor <= FIXED_CHAR_BUFFER_SIZE && self@ == s@),
    {
        if self.len() != s.len() {
            return false;
        }
        let n = self.len();
        let mut i: usize = 0;
        while i < n
            invariant
                n == self.cursor,
                n == s.cursor,
                i <= n,
                i <= FIXED_CHAR_BUFFER_SIZE,
                !(n > FIXED_CHAR_BUFFER_SIZE && self.buffer@ == s.buffer@),
                forall|j: int| 0 <= j < i ==> self.buffer@[j] == s.buffer@[j],
            decreases n - i,
        {
            proof {
                if i >= FIXED_CHAR_BUFFER_SIZE {
                    assert(self.buffer@ =~= s.buffer@);
                    assert(false);
                }
            }
            if *self.get(i) != *s.get(i) {
                proof {
                    if n <= FIXED_CHAR_BUFFER_SIZE {
                        assert(self@[i as int] != s@[i as int]);
                    }
                }
                return false;
            }
            i = i + 1;
        }
        assert(self@ =~= s@);
        true
    }
}

/// A string that was empty and then took the characters of `s` through `copystr`
/// matches `s` exactly when `s` has one byte per character and at most
/// `FIXED_CHAR_BUFFER_SIZE` of them; comparing it with `s` never runs off its buffer.
pub proof fn lemma_copystr_then_samestr(before: TinyString, after: TinyString, s: &str)
    requires
        before.cursor == 0,
        after.cursor == before.cursor + copied_count(s@),
        copied_count(s@) > 0 ==> after.buffer@ == before.buffer@.subrange(0, before.cursor as int)
            + s@.subrange(0, copied_count(s@) as int)
            + before.buffer@.subrange(before.cursor + copied_count(s@), FIXED_CHAR_BUFFER_SIZE as int),
        copied_count(s@) == 0 ==> after.buffer@ == before.buffer@,
    ensures
        !samestr_overruns(after, s),
        same_as_str(after, s) <==> (byte_len(s) == s@.len() && s@.len() <= FIXED_CHAR_BUFFER_SIZE),
{
    lemma_chars_le_bytes(s@);
    let k = copied_count(s@) as int;
    if k > 0 {
        assert(after.buffer@.subrange(0, k) =~= s@.subrange(0, k));
    }
    if byte_len(s) == s@.len() && s@.len() <= FIXED_CHAR_BUFFER_SIZE {
        assert(after@ =~= s@);
    }
}

impl core::ops::Index<usize> for TinyString {
    type Output = char;

    fn index(&self, index: usize) -> (c: &char)
        ensures
            *c == self.buffer@[index as int],
    {
        self.get(index)
    }
}

impl vstd::std_specs::core::IndexSpecImpl<usize> for TinyString {
    open spec fn index_req(&self, index: &usize) -> bool {
        *index < FIXED_CHAR_BUFFER_SIZE
    }
}

} // verus!
