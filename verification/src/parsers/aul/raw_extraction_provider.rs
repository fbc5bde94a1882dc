//! Where the parts of a unified log lie in a plain copy of a file system: the
//! logs in one tree of directories, the texts that they refer to in another.

use vstd::prelude::*;

use crate::text::{chars_of, string_of};

verus! {

/// The bytes that a character takes in UTF-8.
pub open spec fn char_width(c: char) -> nat {
    if (c as u32) < 0x80 {
        1
    } else if (c as u32) < 0x800 {
        2
    } else if (c as u32) < 0x1_0000 {
        3
    } else {
        4
    }
}

/// The bytes that a text takes in UTF-8.
pub open spec fn text_width(s: Seq<char>) -> nat
    decreases s.len(),
{
    if s.len() == 0 {
        0
    } else {
        text_width(s.drop_last()) + char_width(s.last())
    }
}

/// An identifier with its leading zeros, of which up to two may be missing, or
/// why it is none.
pub open spec fn full_uuid(uuid: Seq<char>) -> Result<Seq<char>, Seq<char>> {
    if text_width(uuid) == 31 {
        Ok("0"@ + uuid)
    } else if text_width(uuid) == 30 {
        Ok("00"@ + uuid)
    } else if text_width(uuid) == 32 {
        Ok(uuid)
    } else {
        Err("uuid length not correct: "@ + uuid)
    }
}

/// How many characters make the first two bytes of a text: none where two bytes
/// end within a character.
pub open spec fn two_byte_chars(s: Seq<char>) -> Option<int> {
    if s.len() >= 1 && char_width(s[0]) == 2 {
        Some(1)
    } else if s.len() >= 2 && char_width(s[0]) == 1 && char_width(s[1]) == 1 {
        Some(2)
    } else {
        None
    }
}

fn width_up_to(v: &Vec<char>, most: usize) -> (r: usize)
    requires
        most <= 1000,
    ensures
        text_width(v@) <= most ==> r == text_width(v@),
        text_width(v@) > most ==> r > most,
{
    let mut r: usize = 0;
    let mut i: usize = 0;
    while i < v.len()
        invariant
            i <= v.len(),
            most <= 1000,
            r <= most,
            r == text_width(v@.take(i as int)),
        decreases v.len() - i,
    {
        proof {
            assert(v@.take(i + 1).drop_last() == v@.take(i as int));
            assert(v@.take(i + 1).last() == v@[i as int]);
        }
        let c: u32 = v[i] as u32;
        let w: usize = if c < 0x80 {
            1
        } else if c < 0x800 {
            2
        } else if c < 0x1_0000 {
            3
        } else {
            4
        };
        r += w;
        i += 1;
        if r > most {
            proof {
                lemma_width_grows(v@, i as int);
            }
            return r;
        }
    }
    assert(v@.take(i as int) == v@);
    r
}

proof fn lemma_width_grows(s: Seq<char>, n: int)
    requires
        0 <= n <= s.len(),
    ensures
        text_width(s.take(n)) <= text_width(s),
    decreases s.len(),
{
    if n < s.len() {
        assert(s.drop_last().take(n) == s.take(n));
        lemma_width_grows(s.drop_last(), n);
    } else {
        assert(s.take(n) == s);
    }
}

/// An identifier with its leading zeros, or why it is none.
pub fn normalize_uuid(uuid: &str) -> (r: Result<String, String>)
    ensures
        match r {
            Ok(s) => full_uuid(uuid@) == Ok::<Seq<char>, Seq<char>>(s@),
            Err(e) => full_uuid(uuid@) == Err::<Seq<char>, Seq<char>>(e@),
        },
{
    let v = chars_of(uuid);
    let n: usize = width_up_to(&v, 32);
    if n == 31 {
        let mut s = "0".to_owned();
        s.append(uuid);
        Ok(s)
    } else if n == 30 {
        let mut s = "00".to_owned();
        s.append(uuid);
        Ok(s)
    } else if n == 32 {
        Ok(uuid.to_owned())
    } else {
        let mut e = "uuid length not correct: ".to_owned();
        e.append(uuid);
        Err(e)
    }
}

/// The two trees of directories.
#[derive(Debug)]
pub struct RawExtractionProvider {
    diagnostics_root: String,
    uuidtext_root: String,
}

impl RawExtractionProvider {
    /// The tree with the logs.
    pub closed spec fn diagnostics(self) -> Seq<char> {
        self.diagnostics_root@
    }

    /// The tree with the texts.
    pub closed spec fn uuidtext(self) -> Seq<char> {
        self.uuidtext_root@
    }

    /// The two trees of directories.
    pub fn new(diagnostics_root: String, uuidtext_root: String) -> (r: Self)
        ensures
            r.diagnostics() == diagnostics_root@,
            r.uuidtext() == uuidtext_root@,
    {
        RawExtractionProvider { diagnostics_root, uuidtext_root }
    }

    /// The tree with the logs, in which the files of traces and of times lie.
    pub fn diagnostics_root(&self) -> (r: &String)
        ensures
            r@ == self.diagnostics(),
    {
        &self.diagnostics_root
    }

    /// The tree with the texts.
    pub fn uuidtext_root(&self) -> (r: &String)
        ensures
            r@ == self.uuidtext(),
    {
        &self.uuidtext_root
    }

    /// The steps of the path to the texts of a program: the tree with the texts,
    /// the first two digits of the identifier, and the rest of them.
    pub fn uuidtext_path(&self, uuid: &str) -> (r: Result<Vec<String>, String>)
        requires
            full_uuid(uuid@) matches Ok(full) ==> two_byte_chars(full) is Some,
        ensures
            match r {
                Ok(path) => {
                    let full = full_uuid(uuid@)->Ok_0;
                    let n = two_byte_chars(full)->0;
                    &&& full_uuid(uuid@) is Ok
                    &&& crate::text::texts(path@) == seq![
                        self.uuidtext(),
                        full.take(n),
                        full.skip(n),
                    ]
                },
                Err(e) => full_uuid(uuid@) == Err::<Seq<char>, Seq<char>>(e@),
            },
    {
        let full = match normalize_uuid(uuid) {
            Ok(full) => full,
            Err(e) => {
                return Err(e);
            },
        };
        let v = chars_of(full.as_str());
        let n: usize = if (v[0] as u32) < 0x80 {
            2
        } else {
            1
        };
        let mut path: Vec<String> = Vec::new();
        let head = string_of(&v, 0, n);
        let rest = string_of(&v, n, v.len());
        assert(head@ =~= full@.take(n as int));
        assert(rest@ =~= full@.skip(n as int));
        path.push(self.uuidtext_root.clone());
        path.push(head);
        path.push(rest);
        assert(crate::text::texts(path@) =~= seq![
            self.uuidtext(),
            full@.take(n as int),
            full@.skip(n as int),
        ]);
        Ok(path)
    }

    /// The steps of the path to shared texts: the tree with the texts, `dsc`, and
    /// the identifier.
    pub fn dsc_path(&self, uuid: &str) -> (r: Result<Vec<String>, String>)
        ensures
            match r {
                Ok(path) => full_uuid(uuid@) is Ok && crate::text::texts(path@) == seq![
                    self.uuidtext(),
                    "dsc"@,
                    full_uuid(uuid@)->Ok_0,
                ],
                Err(e) => full_uuid(uuid@) == Err::<Seq<char>, Seq<char>>(e@),
            },
    {
        let full = match normalize_uuid(uuid) {
            Ok(full) => full,
            Err(e) => {
                return Err(e);
            },
        };
        let ghost fv = full@;
        let mut path: Vec<String> = Vec::new();
        path.push(self.uuidtext_root.clone());
        path.push("dsc".to_owned());
        path.push(full);
        assert(crate::text::texts(path@) =~= seq![self.uuidtext(), "dsc"@, fv]);
        Ok(path)
    }
}

proof fn lemma_width_push(s: Seq<char>, c: char)
    ensures
        text_width(seq![c] + s) == char_width(c) + text_width(s),
    decreases s.len(),
{
    if s.len() == 0 {
        assert(seq![c] + s =~= seq![c]);
        assert(seq![c].drop_last() =~= seq![]);
        assert(text_width(seq![c]) == text_width(seq![]) + char_width(c));
    } else {
        assert((seq![c] + s).drop_last() =~= seq![c] + s.drop_last());
        lemma_width_push(s.drop_last(), c);
    }
}

/// A completed identifier always has the full length.
pub proof fn lemma_full_uuid_is_full(uuid: Seq<char>)
    ensures
        full_uuid(uuid) matches Ok(full) ==> text_width(full) == 32,
{
    reveal_strlit("0");
    reveal_strlit("00");
    assert("0"@ =~= seq!['0']);
    assert("00"@ + uuid =~= seq!['0'] + (seq!['0'] + uuid));
    lemma_width_push(uuid, '0');
    lemma_width_push(seq!['0'] + uuid, '0');
}

/// Completing an identifier twice changes nothing more.
pub proof fn lemma_full_uuid_is_stable(uuid: Seq<char>)
    ensures
        full_uuid(uuid) matches Ok(full) ==> full_uuid(full) == Ok::<Seq<char>, Seq<char>>(full),
{
    lemma_full_uuid_is_full(uuid);
}

} // verus!
