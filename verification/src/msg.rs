//! The decoded sentence.

use vstd::prelude::*;

verus! {

/// What a decoded sentence holds, as mathematical values.
#[verifier::ext_equal]
pub struct MsgView {
    pub encapsulation: bool,
    pub talker: Seq<char>,
    pub msgtype: Seq<char>,
    pub params: Seq<Seq<char>>,
    pub chksum: Seq<char>,
    pub chksum_valid: Option<bool>,
}

/// Whether the character is a capital letter.
pub open spec fn is_upper_char(c: char) -> bool {
    'A' <= c && c <= 'Z'
}

/// Whether the character is an upper-case hexadecimal digit.
pub open spec fn is_hex_char(c: char) -> bool {
    ('0' <= c && c <= '9') || ('A' <= c && c <= 'F')
}

/// Whether the character may stand in a field: any but comma, asterisk, carriage
/// return and line feed.
pub open spec fn is_field_char(c: char) -> bool {
    c != ',' && c != '*' && c != '\r' && c != '\n'
}

impl MsgView {
    /// What holds of every message that the decoder hands out: the talker is two
    /// capital letters, the type three, no field holds a separator, and the
    /// checksum is either absent and not judged, or two hexadecimal digits and
    /// judged.
    pub open spec fn well_formed(self) -> bool {
        &&& self.talker.len() == 2
        &&& forall|i: int| 0 <= i < self.talker.len() ==> is_upper_char(#[trigger] self.talker[i])
        &&& self.msgtype.len() == 3
        &&& forall|i: int|
            0 <= i < self.msgtype.len() ==> is_upper_char(#[trigger] self.msgtype[i])
        &&& forall|i: int, j: int|
            0 <= i < self.params.len() && 0 <= j < self.params[i].len() ==> is_field_char(
                #[trigger] self.params[i][j],
            )
        &&& forall|i: int| 0 <= i < self.chksum.len() ==> is_hex_char(#[trigger] self.chksum[i])
        &&& match self.chksum_valid {
            Some(_) => self.chksum.len() == 2,
            None => self.chksum.len() == 0,
        }
    }

    /// The sentence of which nothing has been read yet.
    pub open spec fn empty() -> MsgView {
        MsgView {
            encapsulation: false,
            talker: Seq::empty(),
            msgtype: Seq::empty(),
            params: Seq::empty(),
            chksum: Seq::empty(),
            chksum_valid: None,
        }
    }
}

/// One sentence as it was read from the wire.
#[derive(Debug)]
pub struct Nmea0183Msg {
    /// Whether the sentence began with `!` rather than `$`.
    pub encapsulation: bool,
    /// The two letters that identify the source.
    pub talker: String,
    /// The three letters that give the kind of sentence.
    pub msgtype: String,
    /// The comma-separated fields, in the order they were sent.
    pub params: Vec<String>,
    /// The two hexadecimal digits that followed `*`, empty if none were sent.
    pub chksum: String,
    /// Whether the digits match the checksum of the bytes received, if digits were sent.
    pub chksum_valid: Option<bool>,
}

/// The fields of a sentence as sequences of characters.
pub open spec fn params_view(params: Seq<String>) -> Seq<Seq<char>> {
    Seq::new(params.len(), |i: int| params[i]@)
}

impl View for Nmea0183Msg {
    type V = MsgView;

    open spec fn view(&self) -> MsgView {
        MsgView {
            encapsulation: self.encapsulation,
            talker: self.talker@,
            msgtype: self.msgtype@,
            params: params_view(self.params@),
            chksum: self.chksum@,
            chksum_valid: self.chksum_valid,
        }
    }
}

impl Default for Nmea0183Msg {
    fn default() -> (m: Self)
        ensures
            m@ == MsgView::empty(),
    {
        let m = Self {
            encapsulation: false,
            talker: String::new(),
            msgtype: String::new(),
            params: Vec::new(),
            chksum: String::new(),
            chksum_valid: None,
        };
        assert(params_view(m.params@) =~= Seq::empty());
        m
    }
}

} // verus!
