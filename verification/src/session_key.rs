//! The durable conversation identity an OUTER attaches to an inference.
//!
//! `session_id` names a pipeline session and `request_id` names one turn;
//! neither survives a process restart as "the same conversation", which is
//! what a persisted KV record has to be keyed by. `session_key` is that third
//! identity, and the grammar is enforced rather than advisory: two different
//! conversations that pick the same raw string become the same record, and
//! byte comparison cannot detect that collision afterwards.
use crate::text::{chars_of, encoded_longer_than};
use vstd::prelude::*;
use vstd::string::StrSliceExecFns;
use vstd::utf8::encode_utf8;

verus! {

/// Why a candidate key was refused.
#[derive(Clone, Copy, Debug, PartialEq, Eq, Structural)]
pub enum SessionKeyError {
    /// Missing the `sk1:` version prefix.
    MissingPrefix,
    /// Empty, or longer than 512 bytes counting the prefix.
    Length,
    /// A C0 or C1 control character.
    ControlCharacter,
    /// No `/` after the prefix, so there is no owner namespace.
    MissingSeparator,
    /// Owner or conversation is empty or entirely whitespace.
    EmptyComponent,
}

impl SessionKeyError {
    pub fn as_str(self) -> (r: &'static str)
        ensures
            r@ == match self {
                SessionKeyError::MissingPrefix => "session key must start with sk1:"@,
                SessionKeyError::Length => "session key must be 1..=512 bytes including the prefix"@,
                SessionKeyError::ControlCharacter => "session key must not contain control characters"@,
                SessionKeyError::MissingSeparator => "session key must be sk1:<owner>/<conversation>"@,
                SessionKeyError::EmptyComponent => "session key owner and conversation must be non-blank"@,
            },
    {
        match self {
            SessionKeyError::MissingPrefix => "session key must start with sk1:",
            SessionKeyError::Length => "session key must be 1..=512 bytes including the prefix",
            SessionKeyError::ControlCharacter => "session key must not contain control characters",
            SessionKeyError::MissingSeparator => "session key must be sk1:<owner>/<conversation>",
            SessionKeyError::EmptyComponent => "session key owner and conversation must be non-blank",
        }
    }
}

pub const PREFIX: &'static str = "sk1:";

pub const MAX_BYTES: usize = 512;

/// A C0 or C1 control character (Unicode general category Cc).
pub open spec fn is_control_char(c: char) -> bool {
    let v = c as u32;
    v <= 0x1F || (0x7F <= v && v <= 0x9F)
}

/// A character with the Unicode White_Space property.
pub open spec fn is_white_space(c: char) -> bool {
    let v = c as u32;
    ||| 0x9 <= v && v <= 0xD
    ||| v == 0x20
    ||| v == 0x85
    ||| v == 0xA0
    ||| v == 0x1680
    ||| 0x2000 <= v && v <= 0x200A
    ||| v == 0x2028
    ||| v == 0x2029
    ||| v == 0x202F
    ||| v == 0x205F
    ||| v == 0x3000
}

/// Empty or whitespace only: what trimming leaves nothing of.
pub open spec fn is_blank(s: Seq<char>) -> bool {
    forall|i: int| 0 <= i < s.len() ==> is_white_space(#[trigger] s[i])
}

pub open spec fn has_prefix(c: Seq<char>) -> bool {
    c.len() >= 4 && c[0] == 's' && c[1] == 'k' && c[2] == '1' && c[3] == ':'
}

/// The first `/` at or after position `k`.
pub open spec fn separator_from(c: Seq<char>, k: int) -> Option<int>
    decreases c.len() - k,
{
    if k < 0 || k >= c.len() {
        None
    } else if c[k] == '/' {
        Some(k)
    } else {
        separator_from(c, k + 1)
    }
}

pub proof fn lemma_separator_bounds(c: Seq<char>, k: int)
    requires
        k >= 0,
    ensures
        separator_from(c, k) matches Some(i) ==> k <= i < c.len() && c[i] == '/',
    decreases c.len() - k,
{
    if k < c.len() && c[k] != '/' {
        lemma_separator_bounds(c, k + 1);
    }
}

/// The separator is the first `/` after the prefix; later slashes are data,
/// so a conversation id may itself be a path.
pub open spec fn separator(c: Seq<char>) -> Option<int> {
    separator_from(c, 4)
}

pub open spec fn owner_of(c: Seq<char>) -> Seq<char> {
    c.subrange(4, separator(c)->0)
}

pub open spec fn conversation_of(c: Seq<char>) -> Seq<char> {
    c.subrange(separator(c)->0 + 1, c.len() as int)
}

/// Why `c` is not a key, in the order the grammar is checked.
pub open spec fn key_fault(c: Seq<char>) -> Option<SessionKeyError> {
    if encode_utf8(c).len() > MAX_BYTES || c.len() == 0 {
        Some(SessionKeyError::Length)
    } else if !has_prefix(c) {
        Some(SessionKeyError::MissingPrefix)
    } else if exists|i: int| 0 <= i < c.len() && is_control_char(c[i]) {
        Some(SessionKeyError::ControlCharacter)
    } else if separator(c) is None {
        Some(SessionKeyError::MissingSeparator)
    } else if is_blank(owner_of(c)) || is_blank(conversation_of(c)) {
        Some(SessionKeyError::EmptyComponent)
    } else {
        None
    }
}

/// A validated `sk1:<owner>/<conversation>` key.
///
/// Holds the exact text it was given. Unicode normalisation is deliberately
/// not applied: comparison and hashing are by content, so two keys that
/// differ only in NFC/NFD are different conversations.
#[derive(Debug, PartialEq, Eq, PartialOrd, Ord, Hash)]
pub struct SessionKey {
    raw: String,
    /// Character position of the separating `/`.
    separator: usize,
}

impl View for SessionKey {
    type V = Seq<char>;

    closed spec fn view(&self) -> Seq<char> {
        self.raw@
    }
}

fn is_control(c: char) -> (r: bool)
    ensures
        r == is_control_char(c),
{
    let v = c as u32;
    v <= 0x1F || (0x7F <= v && v <= 0x9F)
}

fn is_white(c: char) -> (r: bool)
    ensures
        r == is_white_space(c),
{
    let v = c as u32;
    (0x9 <= v && v <= 0xD) || v == 0x20 || v == 0x85 || v == 0xA0 || v == 0x1680 || (0x2000 <= v
        && v <= 0x200A) || v == 0x2028 || v == 0x2029 || v == 0x202F || v == 0x205F || v == 0x3000
}

fn blank_range(cs: &Vec<char>, from: usize, to: usize) -> (r: bool)
    requires
        from <= to <= cs@.len(),
    ensures
        r == is_blank(cs@.subrange(from as int, to as int)),
{
    let mut i = from;
    while i < to
        invariant
            from <= i <= to,
            to <= cs@.len(),
            forall|k: int| from <= k < i ==> is_white_space(#[trigger] cs@[k]),
        decreases to - i,
    {
        if !is_white(cs[i]) {
            assert(!is_white_space(cs@.subrange(from as int, to as int)[i - from]));
            return false;
        }
        i += 1;
    }
    assert forall|k: int| 0 <= k < to - from implies is_white_space(
        #[trigger] cs@.subrange(from as int, to as int)[k],
    ) by {
        assert(cs@.subrange(from as int, to as int)[k] == cs@[from + k]);
    }
    true
}

impl Clone for SessionKey {
    fn clone(&self) -> (r: Self)
        ensures
            r@ == self@,
    {
        proof {
            use_type_invariant(self);
        }
        SessionKey { raw: self.raw.clone(), separator: self.separator }
    }
}

impl SessionKey {
    #[verifier::type_invariant]
    closed spec fn key_inv(self) -> bool {
        &&& key_fault(self.raw@) is None
        &&& separator(self.raw@) == Some(self.separator as int)
    }

    #[verifier::loop_isolation(false)]
    pub fn parse(raw: &str) -> (r: Result<Self, SessionKeyError>)
        ensures
            r is Ok <==> key_fault(raw@) is None,
            r matches Ok(key) ==> key@ == raw@,
            r matches Err(e) ==> key_fault(raw@) == Some(e),
    {
        let cs = chars_of(raw);
        if encoded_longer_than(&cs, MAX_BYTES) || raw.is_empty() {
            return Err(SessionKeyError::Length);
        }
        let n = cs.len();
        if !(n >= 4 && cs[0] == 's' && cs[1] == 'k' && cs[2] == '1' && cs[3] == ':') {
            return Err(SessionKeyError::MissingPrefix);
        }
        let mut i: usize = 0;
        while i < n
            invariant
                n == cs@.len(),
                i <= n,
                forall|k: int| 0 <= k < i ==> !is_control_char(#[trigger] cs@[k]),
            decreases n - i,
        {
            if is_control(cs[i]) {
                return Err(SessionKeyError::ControlCharacter);
            }
            i += 1;
        }
        let mut j: usize = 4;
        let mut found = false;
        while j < n
            invariant
                n == cs@.len(),
                4 <= j <= n,
                separator(cs@) == separator_from(cs@, j as int),
                !found,
            decreases n - j,
        {
            if cs[j] == '/' {
                found = true;
                break;
            }
            j += 1;
        }
        if !found {
            return Err(SessionKeyError::MissingSeparator);
        }
        assert(separator(cs@) == Some(j as int));
        if blank_range(&cs, 4, j) || blank_range(&cs, j + 1, n) {
            return Err(SessionKeyError::EmptyComponent);
        }
        Ok(SessionKey { raw: raw.to_owned(), separator: j })
    }

    pub fn as_str(&self) -> (r: &str)
        ensures
            r@ == self@,
    {
        self.raw.as_str()
    }

    pub fn owner(&self) -> (r: &str)
        ensures
            r@ == owner_of(self@),
    {
        proof {
            use_type_invariant(self);
            lemma_separator_bounds(self.raw@, 4);
        }
        self.raw.as_str().substring_char(4, self.separator)
    }

    pub fn conversation(&self) -> (r: &str)
        ensures
            r@ == conversation_of(self@),
    {
        proof {
            use_type_invariant(self);
        }
        let s = self.raw.as_str();
        let len = s.unicode_len();
        proof {
            lemma_separator_bounds(self.raw@, 4);
        }
        s.substring_char(self.separator + 1, len)
    }
}

/// The four characters every key starts with.
pub open spec fn key_prefix() -> Seq<char> {
    seq!['s', 'k', '1', ':']
}

proof fn lemma_separator_after(c: Seq<char>, k: int, at: int)
    requires
        0 <= k <= at < c.len(),
        c[at] == '/',
        forall|i: int| k <= i < at ==> c[i] != '/',
    ensures
        separator_from(c, k) == Some(at),
    decreases at - k,
{
    if k < at {
        lemma_separator_after(c, k + 1, at);
    }
}

/// A key is its prefix, its owner, the first `/` and its conversation; the
/// owner holds no `/`, and neither part is blank.
pub proof fn law_key_splits_at_first_separator(c: Seq<char>)
    requires
        key_fault(c) is None,
    ensures
        c == key_prefix() + owner_of(c) + seq!['/'] + conversation_of(c),
        !owner_of(c).contains('/'),
        !is_blank(owner_of(c)),
        !is_blank(conversation_of(c)),
{
    lemma_separator_bounds(c, 4);
    let at = separator(c)->0;
    assert forall|i: int| 4 <= i < at implies c[i] != '/' by {
        if c[i] == '/' {
            lemma_first_separator(c, 4, i);
        }
    }
    assert(c =~= key_prefix() + owner_of(c) + seq!['/'] + conversation_of(c));
    if owner_of(c).contains('/') {
        let i = choose|i: int| 0 <= i < owner_of(c).len() && owner_of(c)[i] == '/';
        assert(c[4 + i] == '/');
    }
}

proof fn lemma_first_separator(c: Seq<char>, k: int, i: int)
    requires
        0 <= k <= i < c.len(),
        c[i] == '/',
    ensures
        separator_from(c, k) matches Some(at) && at <= i,
    decreases i - k,
{
    if k < i && c[k] != '/' {
        lemma_first_separator(c, k + 1, i);
    }
}

/// Composing a key from an owner without `/` and a conversation, neither
/// blank nor holding a control character, within the length limit, gives a
/// key that parses back into exactly that owner and conversation.
pub proof fn law_composed_key_round_trips(owner: Seq<char>, conversation: Seq<char>)
    requires
        !owner.contains('/'),
        !is_blank(owner),
        !is_blank(conversation),
        forall|i: int| 0 <= i < owner.len() ==> !is_control_char(#[trigger] owner[i]),
        forall|i: int| 0 <= i < conversation.len() ==> !is_control_char(#[trigger] conversation[i]),
        encode_utf8(key_prefix() + owner + seq!['/'] + conversation).len() <= MAX_BYTES,
    ensures
        key_fault(key_prefix() + owner + seq!['/'] + conversation) is None,
        owner_of(key_prefix() + owner + seq!['/'] + conversation) == owner,
        conversation_of(key_prefix() + owner + seq!['/'] + conversation) == conversation,
{
    let c = key_prefix() + owner + seq!['/'] + conversation;
    let at = 4 + owner.len() as int;
    assert(c[at] == '/');
    assert forall|i: int| 4 <= i < at implies c[i] != '/' by {
        assert(c[i] == owner[i - 4]);
        if c[i] == '/' {
            assert(owner.contains('/'));
        }
    }
    lemma_separator_after(c, 4, at);
    assert(owner_of(c) =~= owner);
    assert(conversation_of(c) =~= conversation);
    assert forall|i: int| 0 <= i < c.len() implies !is_control_char(c[i]) by {
        if i < 4 {
        } else if i < at {
            assert(c[i] == owner[i - 4]);
        } else if i > at {
            assert(c[i] == conversation[i - at - 1]);
        }
    }
}

/// A key holds no control character anywhere: not in its prefix, its owner
/// or its conversation, the separating `/` included. Text with one is never
/// a key.
pub proof fn law_keys_hold_no_control_character(c: Seq<char>)
    requires
        key_fault(c) is None,
    ensures
        forall|i: int| 0 <= i < c.len() ==> !is_control_char(#[trigger] c[i]),
{
}

} // verus!
