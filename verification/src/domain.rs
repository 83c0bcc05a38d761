//! Stable domain types.
//!
//! All scheduling references use opaque ids. Display names and Matrix ids are metadata only —
//! never used as identity keys.

use sha2::Digest;
use vstd::prelude::*;
use vstd::utf8::encode_utf8;

use crate::calendar::Timestamp;
use crate::lists::{find, first_index, lemma_first_index, some};
use crate::rhythm::Rhythm;
use crate::text::{
    chars_of, find_char, first_at, is_same_name, join, join_texts, option_is, same_name, same_text,
    show_signed, show_two, signed_decimal, text_of, two_digits, views,
};

verus! {

pub type PersonId = String;

pub type GroupId = String;

pub type SlotId = String;

/// A workload factor: the bits of an IEEE 754 double, carried along and never computed with here.
#[derive(Clone, Copy, Debug, PartialEq, Eq, Structural)]
pub struct Weight {
    pub bits: u64,
}

/// The bits of the factor 1.
pub const NEUTRAL_WEIGHT: u64 = 0x3FF0000000000000;

/// Someone who takes part in the cleaning.
#[derive(Clone, Debug)]
pub struct Person {
    pub id: PersonId,
    pub display_name: String,
    pub active: bool,
    /// If set, this person has a Matrix account and can send commands.
    pub matrix_id: Option<String>,
}

/// The workload factor of one room.
#[derive(Clone, Debug)]
pub struct RoomWeight {
    pub room_name: String,
    pub weight: Weight,
}

/// A named sub-unit within a multi-slot `CleaningGroup`: each turn assigns one person per slot.
#[derive(Clone, Debug)]
pub struct CleaningSlot {
    pub id: SlotId,
    pub name: String,
    pub room_names: Vec<String>,
    /// Workload factor of each room that has one of its own.
    pub room_weights: Vec<RoomWeight>,
    /// Workload factor of the slot.
    pub weight: Weight,
}

/// A set of rooms that its members clean in turn.
#[derive(Clone, Debug)]
pub struct CleaningGroup {
    pub id: GroupId,
    pub name: String,
    pub member_ids: Vec<PersonId>,
    /// The turn order: front = next up.
    pub rotation_queue: Vec<PersonId>,
    /// Used in single-slot mode (slots is empty).
    pub room_names: Vec<String>,
    /// Workload factor of each room that has one of its own.
    pub room_weights: Vec<RoomWeight>,
    /// When non-empty, enables multi-slot mode.
    pub slots: Vec<CleaningSlot>,
    /// Workload factor of the group.
    pub weight: Weight,
    pub rhythm: Rhythm,
    pub is_active: bool,
}

/// A per-person iCal feed token. Only the SHA-256 hash is kept; the raw token is shown once and
/// never stored.
#[derive(Clone, Debug)]
pub struct CalendarToken {
    pub id: String,
    /// SHA-256 of the raw token, in hex.
    pub token_hash: String,
    pub person_id: PersonId,
    pub created_at: Timestamp,
    pub revoked: bool,
}

/// How a `SlotAssignment` was created.
#[derive(Clone, Copy, Debug, PartialEq, Eq, Structural)]
pub enum AssignmentSource {
    RoundRobin,
    Manual,
    Assign,
    Takeover,
    Swap,
    Import,
}

impl Default for AssignmentSource {
    fn default() -> (r: Self)
        ensures
            r == AssignmentSource::RoundRobin,
    {
        AssignmentSource::RoundRobin
    }
}

/// A frozen assignment: one person (or nobody) is responsible for one slot of one turn. Once
/// stored, never overwritten except by an explicit assignment.
#[derive(Clone, Debug, PartialEq, Eq)]
pub struct SlotAssignment {
    pub group_id: GroupId,
    /// 0 for single-slot groups; index into `CleaningGroup::slots` for multi-slot groups.
    pub slot_index: usize,
    pub iso_year: i32,
    pub iso_week: u32,
    /// Shift within the week.
    pub shift: u8,
    /// `None` = unassigned.
    pub person_id: Option<PersonId>,
    pub source: AssignmentSource,
}

// ── Calls into outside crates ────────────────────────────────────────────────

/// What `uuid::Uuid::new_v5` gives, written with hyphens, for a namespace and a name.
pub uninterp spec fn uuid_v5(namespace: u128, name: Seq<char>) -> Seq<char>;

/// What `sha2::Sha256::digest` gives.
pub uninterp spec fn sha256(data: Seq<u8>) -> Seq<u8>;

/// `uuid::Uuid::new_v4`, written with hyphens: a random id of 36 characters.
#[verifier::external_body]
pub(crate) fn fresh_id() -> (r: String)
    ensures
        r@.len() == 36,
{
    uuid::Uuid::new_v4().to_string()
}

/// Whether a text is an id as it is written with hyphens: 36 small hex digits and hyphens.
pub open spec fn is_plain_id(t: Seq<char>) -> bool {
    &&& t.len() == 36
    &&& forall|i: int|
        0 <= i < t.len() ==> ('0' <= #[trigger] t[i] <= '9' || 'a' <= t[i] <= 'f' || t[i] == '-')
}

/// `uuid::Uuid::new_v5`, written with hyphens: the id that belongs to a name in a namespace, 36
/// small hex digits and hyphens.
#[verifier::external_body]
fn named_id(namespace: u128, name: &str) -> (r: String)
    ensures
        r@ == uuid_v5(namespace, name@),
        is_plain_id(r@),
{
    uuid::Uuid::new_v5(&uuid::Uuid::from_u128(namespace), name.as_bytes()).to_string()
}

/// `rand::random`: 32 random bytes.
#[verifier::external_body]
fn random_bytes() -> (r: Vec<u8>)
    ensures
        r@.len() == 32,
{
    let raw: [u8; 32] = rand::random();
    raw.to_vec()
}

/// `sha2::Sha256::digest`: the SHA-256 hash of some bytes.
#[verifier::external_body]
fn digest(data: &Vec<u8>) -> (r: Vec<u8>)
    ensures
        r@ == sha256(data@),
{
    sha2::Sha256::digest(data).to_vec()
}

/// `hex::encode`: two small hex digits for each byte.
#[verifier::external_body]
fn hex_encode(data: &Vec<u8>) -> (r: String)
    ensures
        r@ == hex_text(data@),
{
    hex::encode(data)
}

/// `hex::decode`: the bytes that hex digits of either case spell, or `None` when there is another
/// character or an odd number of digits.
#[verifier::external_body]
fn hex_decode(text: &str) -> (r: Option<Vec<u8>>)
    ensures
        (r is Some) == is_hex(text@),
        r is Some ==> r->0@ == hex_bytes(text@),
{
    hex::decode(text).ok()
}

// ── Hex ──────────────────────────────────────────────────────────────────────

/// The small hex digit of a number below 16.
pub open spec fn hex_digit(n: int) -> char {
    if n < 10 {
        (48 + n) as char
    } else {
        (87 + n) as char
    }
}

/// The number that a hex digit of either case stands for.
pub open spec fn hex_value(c: char) -> Option<int> {
    if '0' <= c && c <= '9' {
        Some(c as int - 48)
    } else if 'a' <= c && c <= 'f' {
        Some(c as int - 87)
    } else if 'A' <= c && c <= 'F' {
        Some(c as int - 55)
    } else {
        None
    }
}

/// Two hex digits for each byte.
pub open spec fn hex_text(data: Seq<u8>) -> Seq<char> {
    Seq::new(
        2 * data.len(),
        |i: int|
            if i % 2 == 0 {
                hex_digit(data[i / 2] as int / 16)
            } else {
                hex_digit(data[i / 2] as int % 16)
            },
    )
}

/// Whether a text is an even number of hex digits.
pub open spec fn is_hex(t: Seq<char>) -> bool {
    t.len() % 2 == 0 && forall|i: int| 0 <= i < t.len() ==> hex_value(#[trigger] t[i]) is Some
}

/// The bytes that pairs of hex digits stand for.
pub open spec fn hex_bytes(t: Seq<char>) -> Seq<u8> {
    Seq::new(
        t.len() / 2,
        |i: int| (hex_value(t[2 * i])->0 * 16 + hex_value(t[2 * i + 1])->0) as u8,
    )
}

/// Reading hex gives back the bytes that were written.
proof fn lemma_hex_reads_back(data: Seq<u8>)
    ensures
        is_hex(hex_text(data)),
        hex_bytes(hex_text(data)) == data,
{
    let t = hex_text(data);
    assert forall|i: int| 0 <= i < t.len() implies hex_value(#[trigger] t[i]) is Some by {
        let b = data[i / 2];
        assert(0 <= b as int / 16 < 16 && 0 <= b as int % 16 < 16);
    }
    assert forall|i: int| 0 <= i < data.len() implies hex_bytes(t)[i] == #[trigger] data[i] by {
        let b = data[i];
        assert(2 * i / 2 == i && (2 * i + 1) / 2 == i);
        assert(t[2 * i] == hex_digit(b as int / 16));
        assert(t[2 * i + 1] == hex_digit(b as int % 16));
        assert(hex_value(t[2 * i])->0 == b as int / 16);
        assert(hex_value(t[2 * i + 1])->0 == b as int % 16);
    }
    assert(hex_bytes(t) =~= data);
}

// ── Persons ──────────────────────────────────────────────────────────────────

/// The name part of a Matrix id: between the `@` and the first `:`.
pub open spec fn localpart(mxid: Seq<char>) -> Seq<char> {
    if mxid.len() > 0 && mxid[0] == '@' {
        mxid.skip(1).take(first_at(mxid.skip(1), ':'))
    } else {
        mxid
    }
}

/// The name part of a Matrix id, or all of a text that is none.
fn local_name(mxid: &str) -> (r: String)
    ensures
        r@ == localpart(mxid@),
{
    let v = chars_of(mxid);
    if v.len() > 0 && v[0] == '@' {
        let end = find_char(&v, 1, ':');
        assert(v@.subrange(1, end as int) =~= localpart(mxid@));
        text_of(&v, 1, end)
    } else {
        mxid.to_owned()
    }
}

impl Person {
    /// Someone with a Matrix account, first shown by the name part of its id.
    pub fn new_matrix(mxid: &str) -> (r: Self)
        ensures
            r.display_name@ == localpart(mxid@),
            r.active,
            r.matrix_id is Some && r.matrix_id->0@ == mxid@,
            r.id@.len() == 36,
    {
        Person {
            id: fresh_id(),
            display_name: local_name(mxid),
            active: true,
            matrix_id: Some(mxid.to_owned()),
        }
    }

    /// Someone without a Matrix account.
    pub fn new_named(name: &str) -> (r: Self)
        ensures
            r.display_name@ == name@,
            r.active,
            r.matrix_id is None,
            r.id@.len() == 36,
    {
        Person { id: fresh_id(), display_name: name.to_owned(), active: true, matrix_id: None }
    }

    /// Whether a text is this person's Matrix id, or display name up to the case of letters.
    pub open spec fn is_called(self, s: Seq<char>) -> bool {
        (self.matrix_id is Some && self.matrix_id->0@ == s) || same_name(self.display_name@, s)
    }

    /// True when `s` matches this person's MXID or display name (case-insensitive).
    pub fn matches(&self, s: &str) -> (r: bool)
        ensures
            r == self.is_called(s@),
    {
        option_is(&self.matrix_id, s) || is_same_name(self.display_name.as_str(), s)
    }

    /// A copy.
    pub fn copy(&self) -> (r: Person)
        ensures
            r == *self,
    {
        Person {
            id: self.id.clone(),
            display_name: self.display_name.clone(),
            active: self.active,
            matrix_id: self.matrix_id.clone(),
        }
    }
}

// ── Groups ───────────────────────────────────────────────────────────────────

/// The factor that changes nothing.
pub fn default_weight() -> (r: Weight)
    ensures
        r.bits == NEUTRAL_WEIGHT,
{
    Weight { bits: NEUTRAL_WEIGHT }
}

impl CleaningSlot {
    /// A slot without rooms.
    pub fn new(name: &str) -> (r: Self)
        ensures
            r.id@.len() == 36,
            r.name@ == name@,
            r.room_names@.len() == 0,
            r.room_weights@.len() == 0,
            r.weight.bits == NEUTRAL_WEIGHT,
    {
        CleaningSlot {
            id: fresh_id(),
            name: name.to_owned(),
            room_names: Vec::new(),
            room_weights: Vec::new(),
            weight: default_weight(),
        }
    }
}

/// The slots whose name is `name`, up to the case of letters.
pub open spec fn slot_named(name: Seq<char>) -> spec_fn(CleaningSlot) -> bool {
    |s: CleaningSlot| same_name(s.name@, name)
}

/// The slots whose id is `id`.
pub open spec fn slot_with_id(id: Seq<char>) -> spec_fn(CleaningSlot) -> bool {
    |s: CleaningSlot| s.id@ == id
}

/// The names of slots.
pub open spec fn slot_names(slots: Seq<CleaningSlot>) -> Seq<Seq<char>> {
    slots.map_values(|s: CleaningSlot| s.name@)
}

impl CleaningGroup {
    /// An active group without members, cleaned every week.
    pub fn new(name: &str) -> (r: Self)
        ensures
            r.id@.len() == 36,
            r.name@ == name@,
            r.member_ids@.len() == 0,
            r.rotation_queue@.len() == 0,
            r.room_names@.len() == 0,
            r.room_weights@.len() == 0,
            r.slots@.len() == 0,
            r.weight.bits == NEUTRAL_WEIGHT,
            r.rhythm.every_weeks == Some(1u32),
            r.rhythm.shift_starts@.len() == 0,
            r.is_active,
    {
        CleaningGroup {
            id: fresh_id(),
            name: name.to_owned(),
            member_ids: Vec::new(),
            rotation_queue: Vec::new(),
            room_names: Vec::new(),
            room_weights: Vec::new(),
            slots: Vec::new(),
            weight: default_weight(),
            rhythm: Rhythm::weekly(),
            is_active: true,
        }
    }

    /// How many people clean at a turn.
    pub open spec fn slot_count(self) -> nat {
        if self.slots@.len() == 0 {
            1
        } else {
            self.slots@.len()
        }
    }

    /// How many people clean at a turn: one per slot, one for a group without slots.
    pub fn people_per_turn(&self) -> (r: usize)
        ensures
            r == self.slot_count(),
            r >= 1,
    {
        if self.slots.len() == 0 {
            1
        } else {
            self.slots.len()
        }
    }

    /// Whether the group is divided into slots.
    pub fn is_multi_slot(&self) -> (r: bool)
        ensures
            r == (self.slots@.len() > 0),
    {
        !self.slots.is_empty()
    }

    /// The place of the first slot of this name, up to the case of letters.
    pub fn slot_position(&self, name: &str) -> (r: Option<usize>)
        ensures
            (r is Some) == some(self.slots@, slot_named(name@)),
            r is Some ==> r->0 == first_index(self.slots@, slot_named(name@)) && r->0
                < self.slots@.len(),
    {
        let mut i: usize = 0;
        while i < self.slots.len()
            invariant
                i <= self.slots.len(),
                forall|k: int| 0 <= k < i ==> !slot_named(name@)(#[trigger] self.slots@[k]),
            decreases self.slots.len() - i,
        {
            if is_same_name(self.slots[i].name.as_str(), name) {
                proof {
                    lemma_first_index(self.slots@, slot_named(name@), i as int);
                }
                return Some(i);
            }
            i += 1;
        }
        proof {
            lemma_first_index(self.slots@, slot_named(name@), i as int);
        }
        None
    }

    /// The place of the slot with this id.
    pub fn slot_position_by_id(&self, id: &str) -> (r: Option<usize>)
        ensures
            (r is Some) == some(self.slots@, slot_with_id(id@)),
            r is Some ==> r->0 == first_index(self.slots@, slot_with_id(id@)) && r->0
                < self.slots@.len(),
    {
        let mut i: usize = 0;
        while i < self.slots.len()
            invariant
                i <= self.slots.len(),
                forall|k: int| 0 <= k < i ==> !slot_with_id(id@)(#[trigger] self.slots@[k]),
            decreases self.slots.len() - i,
        {
            if same_text(self.slots[i].id.as_str(), id) {
                proof {
                    lemma_first_index(self.slots@, slot_with_id(id@), i as int);
                }
                return Some(i);
            }
            i += 1;
        }
        proof {
            lemma_first_index(self.slots@, slot_with_id(id@), i as int);
        }
        None
    }

    /// The first slot of this name, up to the case of letters.
    pub fn slot_by_name(&self, name: &str) -> (r: Option<&CleaningSlot>)
        ensures
            (r is Some) == (find(self.slots@, slot_named(name@)) is Some),
            r is Some ==> *r->0 == find(self.slots@, slot_named(name@))->0,
    {
        match self.slot_position(name) {
            Some(i) => Some(&self.slots[i]),
            None => None,
        }
    }

    /// The slot with this id.
    pub fn slot_by_id(&self, id: &SlotId) -> (r: Option<&CleaningSlot>)
        ensures
            (r is Some) == (find(self.slots@, slot_with_id(id@)) is Some),
            r is Some ==> *r->0 == find(self.slots@, slot_with_id(id@))->0,
    {
        match self.slot_position_by_id(id.as_str()) {
            Some(i) => Some(&self.slots[i]),
            None => None,
        }
    }

    /// The slot with this id, to be changed.
    pub fn slot_by_id_mut(&mut self, id: &SlotId) -> (r: Option<&mut CleaningSlot>)
        ensures
            (r is Some) == some(old(self).slots@, slot_with_id(id@)),
            r is None ==> *final(self) == *old(self),
            r is Some ==> *r->0 == old(self).slots@[first_index(
                old(self).slots@,
                slot_with_id(id@),
            )],
            r is Some ==> final(self).slots@ == old(self).slots@.update(
                first_index(old(self).slots@, slot_with_id(id@)),
                *final(r->0),
            ),
            final(self).id == old(self).id,
            final(self).name == old(self).name,
            final(self).member_ids == old(self).member_ids,
            final(self).rotation_queue == old(self).rotation_queue,
            final(self).room_names == old(self).room_names,
            final(self).room_weights == old(self).room_weights,
            final(self).weight == old(self).weight,
            final(self).rhythm == old(self).rhythm,
            final(self).is_active == old(self).is_active,
    {
        match self.slot_position_by_id(id.as_str()) {
            Some(i) => Some(&mut self.slots[i]),
            None => None,
        }
    }

    /// "Rooms: a, b", when there are any.
    pub open spec fn rooms_line(self) -> Option<Seq<char>> {
        if self.room_names@.len() == 0 {
            None
        } else {
            Some("Rooms: "@ + join(views(self.room_names@), ", "@))
        }
    }

    /// Single-slot rooms text (for non-slotted groups or scheduler header).
    pub fn rooms_text(&self) -> (r: Option<String>)
        ensures
            (r is Some) == (self.rooms_line() is Some),
            r is Some ==> r->0@ == self.rooms_line()->0,
    {
        if self.room_names.is_empty() {
            None
        } else {
            Some("Rooms: ".to_owned().concat(join_texts(&self.room_names, ", ").as_str()))
        }
    }
}

// ── Calendar tokens ──────────────────────────────────────────────────────────

/// The token made of 32 bytes, and the hash that is stored of it.
pub fn calendar_token_of(raw: &Vec<u8>) -> (r: (String, String))
    ensures
        r.0@ == hex_text(raw@),
        r.1@ == hex_text(sha256(raw@)),
{
    (hex_encode(raw), hex_encode(&digest(raw)))
}

/// Generate a new random token: the 64 hex digits that are handed out, and the hash that is
/// stored.
pub fn new_calendar_token() -> (r: (String, String))
    ensures
        exists|raw: Seq<u8>|
            raw.len() == 32 && r.0@ == #[trigger] hex_text(raw) && r.1@ == hex_text(sha256(raw)),
        token_matches(r.0@, r.1@),
{
    let raw = random_bytes();
    let r = calendar_token_of(&raw);
    proof {
        lemma_hex_reads_back(raw@);
    }
    r
}

/// Whether a token is the one whose hash was stored.
pub open spec fn token_matches(token: Seq<char>, stored: Seq<char>) -> bool {
    is_hex(token) && hex_text(sha256(hex_bytes(token))) == stored
}

/// Verify a raw hex token string against a stored SHA-256 hash.
pub fn verify_calendar_token(token_hex: &str, stored_hash: &str) -> (r: bool)
    ensures
        r == token_matches(token_hex@, stored_hash@),
{
    match hex_decode(token_hex) {
        Some(raw) => same_text(hex_encode(&digest(&raw)).as_str(), stored_hash),
        None => false,
    }
}

/// The SHA-256 hash of a text, in hex.
pub fn fingerprint(text: &str) -> (r: String)
    ensures
        r@ == hex_text(sha256(encode_utf8(text@))),
{
    hex_encode(&digest(&text.as_bytes_vec()))
}

/// The token made of any bytes is accepted against the hash stored for it.
pub proof fn law_issued_token_is_accepted(raw: Seq<u8>)
    ensures
        token_matches(hex_text(raw), hex_text(sha256(raw))),
{
    lemma_hex_reads_back(raw);
}

// ── Assignment ids ───────────────────────────────────────────────────────────

/// The namespace of assignment ids.
pub const ASSIGNMENT_NS: u128 = 0xc1ea3b07c1ea3b07c1ea3b07c1ea3b07;

/// The id of an assignment of a person to a group in a week.
pub open spec fn assignment_uid_text(
    group_id: Seq<char>,
    year: int,
    week: int,
    person_id: Seq<char>,
) -> Seq<char> {
    uuid_v5(
        ASSIGNMENT_NS,
        group_id + ":"@ + signed_decimal(year) + ":W"@ + two_digits(week as nat) + ":"@ + person_id,
    )
}

/// The id of an assignment of a person to a slot of a group in a week.
pub open spec fn slot_uid_text(
    group_id: Seq<char>,
    slot_id: Seq<char>,
    year: int,
    week: int,
    person_id: Seq<char>,
) -> Seq<char> {
    uuid_v5(
        ASSIGNMENT_NS,
        group_id + ":"@ + slot_id + ":"@ + signed_decimal(year) + ":W"@ + two_digits(week as nat)
            + ":"@ + person_id,
    )
}

/// Stable id for a (group, year, week, assignee) tuple: identical inputs always produce the same
/// one.
pub fn assignment_uid(group_id: &str, year: i32, week: u32, person_id: &str) -> (r: String)
    ensures
        r@ == assignment_uid_text(group_id@, year as int, week as int, person_id@),
        is_plain_id(r@),
{
    let name = group_id.to_owned().concat(":").concat(show_signed(year as i64).as_str()).concat(
        ":W",
    ).concat(show_two(week as u64).as_str()).concat(":").concat(person_id);
    named_id(ASSIGNMENT_NS, name.as_str())
}

/// Stable id for a (group, slot, year, week, assignee) tuple.
pub fn slot_assignment_uid(
    group_id: &str,
    slot_id: &str,
    year: i32,
    week: u32,
    person_id: &str,
) -> (r: String)
    ensures
        r@ == slot_uid_text(group_id@, slot_id@, year as int, week as int, person_id@),
        is_plain_id(r@),
{
    let name = group_id.to_owned().concat(":").concat(slot_id).concat(":").concat(
        show_signed(year as i64).as_str(),
    ).concat(":W").concat(show_two(week as u64).as_str()).concat(":").concat(person_id);
    named_id(ASSIGNMENT_NS, name.as_str())
}

} // verus!
