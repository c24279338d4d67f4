//! Messages as bytes: words and texts, packed with Cap'n Proto.
use vstd::prelude::*;

verus! {

/// What the Cap'n Proto library says of bytes that it does not take.
#[verifier::external_type_specification]
#[verifier::external_body]
pub struct ExCapnpError(capnp::Error);

/// Words and texts in order: what a message is made of.
pub struct Flat {
    pub words: Vec<u64>,
    pub texts: Vec<String>,
}

/// The contents of a [`Flat`].
#[verifier::ext_equal]
pub struct FlatView {
    pub words: Seq<u64>,
    pub texts: Seq<Seq<char>>,
}

/// The contents of a list of texts.
pub open spec fn text_views(texts: Seq<String>) -> Seq<Seq<char>> {
    texts.map_values(|t: String| t@)
}

impl View for Flat {
    type V = FlatView;

    open spec fn view(&self) -> FlatView {
        FlatView { words: self.words@, texts: text_views(self.texts@) }
    }
}

/// How many words a list holds at most.
pub const LIST_LIMIT: usize = 0x2000_0000;

/// How many characters a text has at most, each of up to four bytes.
pub const TEXT_LIMIT: usize = 0x800_0000;

/// The size of a list, in words, up to which it is unpacked again.
pub const SIZE_LIMIT: u64 = 8_388_600;

/// The number of bytes up to which what is packed is unpacked again.
pub const BYTES_LIMIT: usize = 16_777_200;

impl FlatView {
    /// Whether the lists are short enough to be packed.
    pub open spec fn packable(self) -> bool {
        &&& self.words.len() < LIST_LIMIT
        &&& self.texts.len() < LIST_LIMIT
        &&& forall|i: int|
            0 <= i < self.texts.len() ==> (#[trigger] self.texts[i]).len() < TEXT_LIMIT
    }

    /// Whether what is packed is small enough to be unpacked again.
    pub open spec fn readable(self) -> bool {
        self.words.len() <= SIZE_LIMIT && texts_size(self.texts) <= SIZE_LIMIT
    }
}

/// A bound on the words that some texts take: a character takes at most half a word, and a text
/// three words more, for where it is, how it gets there and how it ends.
pub open spec fn texts_size(texts: Seq<Seq<char>>) -> nat
    decreases texts.len(),
{
    if texts.len() == 0 {
        0
    } else {
        texts_size(texts.drop_last()) + texts.last().len() / 2 + 3
    }
}

/// How many characters some texts have.
pub open spec fn characters(texts: Seq<Seq<char>>) -> nat
    decreases texts.len(),
{
    if texts.len() == 0 {
        0
    } else {
        characters(texts.drop_last()) + texts.last().len()
    }
}

proof fn lemma_texts_size(texts: Seq<Seq<char>>)
    ensures
        2 * texts_size(texts) <= characters(texts) + 6 * texts.len(),
    decreases texts.len(),
{
    if texts.len() > 0 {
        lemma_texts_size(texts.drop_last());
    }
}

/// The bytes of a Cap'n Proto message that holds a list of words.
pub uninterp spec fn packed_words(words: Seq<u64>) -> Seq<u8>;

/// The words of such a message and the bytes behind it, if bytes start with one that the Cap'n
/// Proto library takes.
pub uninterp spec fn unpacked_words(bytes: Seq<u8>) -> Option<(Seq<u64>, Seq<u8>)>;

/// The bytes of a Cap'n Proto message that holds a list of texts.
pub uninterp spec fn packed_texts(texts: Seq<Seq<char>>) -> Seq<u8>;

/// The texts of such a message, if bytes start with one that the Cap'n Proto library takes.
pub uninterp spec fn unpacked_texts(bytes: Seq<u8>) -> Option<Seq<Seq<char>>>;

/// The bytes of words and texts: a message of words, then one of texts.
pub open spec fn packed(words: Seq<u64>, texts: Seq<Seq<char>>) -> Seq<u8> {
    packed_words(words) + packed_texts(texts)
}

/// The words and texts that bytes start with.
pub open spec fn unpacked(bytes: Seq<u8>) -> Option<(Seq<u64>, Seq<Seq<char>>)> {
    match unpacked_words(bytes) {
        Some((words, rest)) => match unpacked_texts(rest) {
            Some(texts) => Some((words, texts)),
            None => None,
        },
        None => None,
    }
}

/// Calls `set_root` of a new `capnp::message::Builder` with a list of words, and
/// `capnp::serialize::write_message`. Claims that the bytes depend on the words alone, that there
/// are eight or more for each word, and that [`unpack_words`] takes them off the front of whatever
/// follows them: it gives the words and what follows, or it fails, and that only where the words
/// are so many that a reader would go over its traversal limit. It always fails on bytes that end
/// early, for `read_message` wants as many as the table at the start of a message says. The builder
/// panics on a list that is too long.
#[verifier::external_body]
fn pack_words(words: &Vec<u64>) -> (r: Vec<u8>)
    requires
        words@.len() < LIST_LIMIT,
    ensures
        r@ == packed_words(words@),
        r@.len() >= 8 * words@.len(),
        forall|rest: Seq<u8>|
            match #[trigger] unpacked_words(r@ + rest) {
                Some(taken) => taken == (words@, rest),
                None => words@.len() > SIZE_LIMIT,
            },
        forall|k: int| 0 <= k < r@.len() ==> #[trigger] unpacked_words(r@.take(k)) is None,
{
    let mut message = capnp::message::Builder::new_default();
    message.set_root::<capnp::primitive_list::Owned<u64>>(&words[..]).unwrap();
    let mut output = Vec::new();
    capnp::serialize::write_message(&mut output, &message).unwrap();
    output
}

/// Calls `set_root` of a new `capnp::message::Builder` with a list of texts, and
/// `capnp::serialize::write_message`. Claims that the bytes depend on the texts alone, that there
/// are eight or more for the pointer to each text and one or more for each character, and that
/// [`unpack_texts`] gives the texts back unless they are so many or so long that a reader would go
/// over its traversal limit. It always fails on bytes that end early. The builder panics on lists
/// and texts that are too long.
#[verifier::external_body]
fn pack_texts(texts: &Vec<String>) -> (r: Vec<u8>)
    requires
        texts@.len() < LIST_LIMIT,
        forall|i: int| 0 <= i < texts@.len() ==> (#[trigger] texts@[i])@.len() < TEXT_LIMIT,
    ensures
        r@ == packed_texts(text_views(texts@)),
        r@.len() >= 8 * texts@.len() + characters(text_views(texts@)),
        texts_size(text_views(texts@)) <= SIZE_LIMIT ==> unpacked_texts(r@) == Some(
            text_views(texts@),
        ),
        forall|k: int| 0 <= k < r@.len() ==> #[trigger] unpacked_texts(r@.take(k)) is None,
{
    let mut message = capnp::message::Builder::new_default();
    message.set_root::<capnp::text_list::Owned>(&texts[..]).unwrap();
    let mut output = Vec::new();
    capnp::serialize::write_message(&mut output, &message).unwrap();
    output
}

/// Calls `capnp::serialize::read_message` and `get_root` of what it reads, for a list of words, and
/// hands on the bytes that were not read. Claims that what comes back depends on the bytes alone.
/// An error comes of bytes that start with no such message and of a message over the traversal
/// limit.
#[verifier::external_body]
fn unpack_words(bytes: &[u8]) -> (r: Result<(Vec<u64>, &[u8]), capnp::Error>)
    ensures
        match r {
            Ok((words, rest)) => unpacked_words(bytes@) == Some((words@, rest@)),
            Err(_) => unpacked_words(bytes@) is None,
        },
{
    let mut rest = bytes;
    let options = capnp::message::ReaderOptions::new();
    let message = capnp::serialize::read_message(&mut rest, options)?;
    let words = message.get_root::<capnp::primitive_list::Reader<u64>>()?.iter().collect();
    Ok((words, rest))
}

/// Calls `capnp::serialize::read_message` and `get_root` of what it reads, for a list of texts.
/// Claims that what comes back depends on the bytes alone. An error comes of bytes that start with
/// no such message, of texts that are not UTF-8 and of a message over the traversal limit.
#[verifier::external_body]
fn unpack_texts(bytes: &[u8]) -> (r: Result<Vec<String>, capnp::Error>)
    ensures
        match r {
            Ok(texts) => unpacked_texts(bytes@) == Some(text_views(texts@)),
            Err(_) => unpacked_texts(bytes@) is None,
        },
{
    let mut rest = bytes;
    let options = capnp::message::ReaderOptions::new();
    let message = capnp::serialize::read_message(&mut rest, options)?;
    let mut texts = Vec::new();
    for text in message.get_root::<capnp::text_list::Reader>()?.iter() {
        texts.push(text?.to_string()?);
    }
    Ok(texts)
}

/// Why bytes are not a message.
#[derive(Clone, Copy, Debug, PartialEq, Eq, Structural)]
pub enum DecodeError {
    /// They hold no words and texts.
    Packing,
    /// The kind of message is not known.
    NotInSchema,
    /// Words or texts are missing, too many, or too large for their places.
    Malformed,
}

impl Flat {
    /// Whether the lists are short enough to be packed.
    pub fn fits(&self) -> (r: bool)
        ensures
            r == self@.packable(),
    {
        if self.words.len() >= LIST_LIMIT || self.texts.len() >= LIST_LIMIT {
            return false;
        }
        let mut i: usize = 0;
        while i < self.texts.len()
            invariant
                i <= self.texts@.len(),
                forall|j: int| 0 <= j < i ==> (#[trigger] self@.texts[j]).len() < TEXT_LIMIT,
            decreases self.texts@.len() - i,
        {
            proof {
                assert(self@.texts[i as int] == self.texts@[i as int]@);
            }
            if self.texts[i].as_str().unicode_len() >= TEXT_LIMIT {
                return false;
            }
            i += 1;
        }
        true
    }

    /// Pack words and texts into bytes, from which they are unpacked again, though not from the
    /// start of them alone.
    pub fn to_bytes(&self) -> (r: Vec<u8>)
        requires
            self@.packable(),
        ensures
            r@ == packed(self@.words, self@.texts),
            self@.readable() || r@.len() <= BYTES_LIMIT ==> unpacked(r@) == Some(
                (self@.words, self@.texts),
            ),
            forall|k: int| 0 <= k < r@.len() ==> #[trigger] unpacked(r@.take(k)) is None,
    {
        proof {
            assert forall|i: int| 0 <= i < self.texts@.len() implies (
            #[trigger] self.texts@[i])@.len() < TEXT_LIMIT by {
                assert(self@.texts[i] == self.texts@[i]@);
            }
        }
        let mut r = pack_words(&self.words);
        let mut texts = pack_texts(&self.texts);
        let ghost front = r@;
        let ghost back = texts@;
        r.append(&mut texts);
        proof {
            lemma_texts_size(self@.texts);
            assert(unpacked_words(r@) == unpacked_words(front + back));
            assert forall|k: int| 0 <= k < r@.len() implies #[trigger] unpacked(
                r@.take(k),
            ) is None by {
                if k < front.len() {
                    assert(r@.take(k) =~= front.take(k));
                } else {
                    assert(r@.take(k) =~= front + back.take(k - front.len()));
                }
            }
        }
        r
    }

    /// Unpack words and texts from bytes.
    pub fn from_bytes(bytes: &[u8]) -> (r: Result<Flat, DecodeError>)
        ensures
            match unpacked(bytes@) {
                Some((words, texts)) => r matches Ok(flat) && flat@ == (FlatView { words, texts }),
                None => r == Err::<Flat, DecodeError>(DecodeError::Packing),
            },
    {
        match unpack_words(bytes) {
            Ok((words, rest)) => match unpack_texts(rest) {
                Ok(texts) => Ok(Flat { words, texts }),
                Err(_) => Err(DecodeError::Packing),
            },
            Err(_) => Err(DecodeError::Packing),
        }
    }
}

}
