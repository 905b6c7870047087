use crate::scan_meta::{parse_decimal, parse_int_spec, ValueType};
use core::cmp::Ordering;
use vstd::prelude::*;

verus! {

/// Value of a little-endian byte buffer of width 2, as a mathematical integer.
pub open spec fn le16(s: Seq<u8>) -> int
    recommends
        s.len() == 2,
{
    s[0] + 0x100 * s[1]
}

/// Value of a little-endian byte buffer of width 4, as a mathematical integer.
pub open spec fn le32(s: Seq<u8>) -> int
    recommends
        s.len() == 4,
{
    s[0] + 0x100 * s[1] + 0x1_0000 * s[2] + 0x100_0000 * s[3]
}

/// Value of a little-endian byte buffer of width 8, as a mathematical integer.
pub open spec fn le64(s: Seq<u8>) -> int
    recommends
        s.len() == 8,
{
    s[0] + 0x100 * s[1] + 0x1_0000 * s[2] + 0x100_0000 * s[3] + 0x1_0000_0000 * s[4]
        + 0x100_0000_0000 * s[5] + 0x1_0000_0000_0000 * s[6] + 0x100_0000_0000_0000 * s[7]
}

/// Two's-complement reading of an unsigned value `u` below `modulus`.
pub open spec fn signed_val(u: int, modulus: int) -> int {
    if 2 * u >= modulus {
        u - modulus
    } else {
        u
    }
}

fn read_le16(bytes: &[u8]) -> (u: u16)
    requires
        bytes@.len() == 2,
    ensures
        u as int == le16(bytes@),
{
    (bytes[0] as u16) + (bytes[1] as u16) * 0x100
}

fn read_le32(bytes: &[u8]) -> (u: u32)
    requires
        bytes@.len() == 4,
    ensures
        u as int == le32(bytes@),
{
    (bytes[0] as u32) + (bytes[1] as u32) * 0x100 + (bytes[2] as u32) * 0x1_0000 + (
    bytes[3] as u32) * 0x100_0000
}

fn read_le64(bytes: &[u8]) -> (u: u64)
    requires
        bytes@.len() == 8,
    ensures
        u as int == le64(bytes@),
{
    (bytes[0] as u64) + (bytes[1] as u64) * 0x100 + (bytes[2] as u64) * 0x1_0000 + (
    bytes[3] as u64) * 0x100_0000 + (bytes[4] as u64) * 0x1_0000_0000 + (bytes[5] as u64)
        * 0x100_0000_0000 + (bytes[6] as u64) * 0x1_0000_0000_0000 + (bytes[7] as u64)
        * 0x100_0000_0000_0000
}

fn write_le16(v: u16) -> (r: Vec<u8>)
    ensures
        r@.len() == 2,
        le16(r@) == v as int,
{
    let mut r: Vec<u8> = Vec::new();
    r.push((v % 0x100) as u8);
    r.push((v / 0x100) as u8);
    proof {
        vstd::arithmetic::div_mod::lemma_fundamental_div_mod(v as int, 0x100);
    }
    r
}

fn write_le32(v: u32) -> (r: Vec<u8>)
    ensures
        r@.len() == 4,
        le32(r@) == v as int,
{
    let x1 = v / 0x100;
    let x2 = x1 / 0x100;
    let mut r: Vec<u8> = Vec::new();
    r.push((v % 0x100) as u8);
    r.push((x1 % 0x100) as u8);
    r.push((x2 % 0x100) as u8);
    r.push((x2 / 0x100) as u8);
    proof {
        vstd::arithmetic::div_mod::lemma_fundamental_div_mod(v as int, 0x100);
        vstd::arithmetic::div_mod::lemma_fundamental_div_mod(x1 as int, 0x100);
        vstd::arithmetic::div_mod::lemma_fundamental_div_mod(x2 as int, 0x100);
    }
    r
}

fn write_le64(v: u64) -> (r: Vec<u8>)
    ensures
        r@.len() == 8,
        le64(r@) == v as int,
{
    let x1 = v / 0x100;
    let x2 = x1 / 0x100;
    let x3 = x2 / 0x100;
    let x4 = x3 / 0x100;
    let x5 = x4 / 0x100;
    let x6 = x5 / 0x100;
    let mut r: Vec<u8> = Vec::new();
    r.push((v % 0x100) as u8);
    r.push((x1 % 0x100) as u8);
    r.push((x2 % 0x100) as u8);
    r.push((x3 % 0x100) as u8);
    r.push((x4 % 0x100) as u8);
    r.push((x5 % 0x100) as u8);
    r.push((x6 % 0x100) as u8);
    r.push((x6 / 0x100) as u8);
    proof {
        vstd::arithmetic::div_mod::lemma_fundamental_div_mod(v as int, 0x100);
        vstd::arithmetic::div_mod::lemma_fundamental_div_mod(x1 as int, 0x100);
        vstd::arithmetic::div_mod::lemma_fundamental_div_mod(x2 as int, 0x100);
        vstd::arithmetic::div_mod::lemma_fundamental_div_mod(x3 as int, 0x100);
        vstd::arithmetic::div_mod::lemma_fundamental_div_mod(x4 as int, 0x100);
        vstd::arithmetic::div_mod::lemma_fundamental_div_mod(x5 as int, 0x100);
        vstd::arithmetic::div_mod::lemma_fundamental_div_mod(x6 as int, 0x100);
    }
    r
}

fn u8_to_i8(u: u8) -> (v: i8)
    ensures
        v as int == signed_val(u as int, 0x100),
{
    if u <= 0x7f {
        u as i8
    } else {
        ((u as i16) - 0x100i16) as i8
    }
}

fn i8_to_u8(v: i8) -> (u: u8)
    ensures
        signed_val(u as int, 0x100) == v as int,
{
    if v >= 0 {
        v as u8
    } else {
        ((v as i16) + 0x100i16) as u8
    }
}

fn u16_to_i16(u: u16) -> (v: i16)
    ensures
        v as int == signed_val(u as int, 0x1_0000),
{
    if u <= 0x7fff {
        u as i16
    } else {
        ((u as i32) - 0x1_0000i32) as i16
    }
}

fn i16_to_u16(v: i16) -> (u: u16)
    ensures
        signed_val(u as int, 0x1_0000) == v as int,
{
    if v >= 0 {
        v as u16
    } else {
        ((v as i32) + 0x1_0000i32) as u16
    }
}

fn u32_to_i32(u: u32) -> (v: i32)
    ensures
        v as int == signed_val(u as int, 0x1_0000_0000),
{
    if u <= 0x7fff_ffff {
        u as i32
    } else {
        ((u as i64) - 0x1_0000_0000i64) as i32
    }
}

fn i32_to_u32(v: i32) -> (u: u32)
    ensures
        signed_val(u as int, 0x1_0000_0000) == v as int,
{
    if v >= 0 {
        v as u32
    } else {
        ((v as i64) + 0x1_0000_0000i64) as u32
    }
}

fn u64_to_i64(u: u64) -> (v: i64)
    ensures
        v as int == signed_val(u as int, 0x1_0000_0000_0000_0000),
{
    if u <= 0x7fff_ffff_ffff_ffff {
        u as i64
    } else {
        ((u as i128) - 0x1_0000_0000_0000_0000i128) as i64
    }
}

fn i64_to_u64(v: i64) -> (u: u64)
    ensures
        signed_val(u as int, 0x1_0000_0000_0000_0000) == v as int,
{
    if v >= 0 {
        v as u64
    } else {
        ((v as i128) + 0x1_0000_0000_0000_0000i128) as u64
    }
}

/// A fixed-width numeric value kind the scan engine understands.
///
/// An implementation fixes the byte width of one value, how a value is decoded
/// from raw memory bytes (host little-endian order), the equality the scan
/// uses against a chunk of memory, a total order, the wrapping buffer
/// difference behind the increased-by and decreased-by predicates, and how a
/// decimal literal is parsed at this kind.
pub trait Scannable: Copy + Sized {
    /// Byte width of one value of this kind.
    spec fn byte_size() -> usize;

    /// Value denoted by a `byte_size()`-byte buffer.
    spec fn decode(bytes: Seq<u8>) -> Self;

    /// Scan equality between two decoded values.
    spec fn spec_eq(self, other: Self) -> bool;

    /// Total order between two decoded values.
    spec fn spec_cmp(self, other: Self) -> Ordering;

    /// Wrapping difference `self - other`.
    spec fn spec_sub(self, other: Self) -> Self;

    /// Which value type tag names this kind.
    spec fn spec_value_type() -> ValueType;

    /// What a decimal literal denotes at this kind.
    spec fn spec_parse(s: Seq<char>) -> Option<Self>;

    proof fn byte_size_bounds()
        ensures
            1 <= Self::byte_size() <= 8,
    ;

    /// Byte width of one value of this kind, as a runtime quantity.
    fn size() -> (n: usize)
        ensures
            n == Self::byte_size(),
    ;

    /// The value type tag that names this kind.
    fn value_type() -> (t: ValueType)
        ensures
            t == Self::spec_value_type(),
    ;

    /// Decode one value from its memory representation.
    fn from_bytes(bytes: &[u8]) -> (v: Self)
        requires
            bytes@.len() == Self::byte_size(),
        ensures
            v == Self::decode(bytes@),
    ;

    /// Memory representation of this value; decoding it gives the value back.
    fn to_bytes(&self) -> (r: Vec<u8>)
        ensures
            r@.len() == Self::byte_size(),
            Self::decode(r@) == *self,
    ;

    /// Whether this value is considered equal to the given chunk of memory.
    fn eq_bytes(&self, bytes: &[u8]) -> (r: bool)
        requires
            bytes@.len() == Self::byte_size(),
        ensures
            r == self.spec_eq(Self::decode(bytes@)),
    ;

    /// Compare this value to the given chunk of memory.
    fn cmp_bytes(&self, bytes: &[u8]) -> (o: Ordering)
        requires
            bytes@.len() == Self::byte_size(),
        ensures
            o == self.spec_cmp(Self::decode(bytes@)),
    ;

    /// Wrapping difference between this value and another.
    fn sub_value(&self, other: &Self) -> (r: Self)
        ensures
            r == self.spec_sub(*other),
    ;

    /// Whether this value is considered equal to another decoded value.
    fn eq_value(&self, other: &Self) -> (r: bool)
        ensures
            r == self.spec_eq(*other),
    ;

    /// Parse a decimal literal at this kind.
    fn parse(s: &str) -> (r: Option<Self>)
        ensures
            r == Self::spec_parse(s@),
    ;
}


impl Scannable for u8 {
    open spec fn byte_size() -> usize {
        1
    }

    open spec fn decode(bytes: Seq<u8>) -> Self {
        bytes[0]
    }

    open spec fn spec_eq(self, other: Self) -> bool {
        self == other
    }

    open spec fn spec_cmp(self, other: Self) -> Ordering {
        if self < other {
            Ordering::Less
        } else if self == other {
            Ordering::Equal
        } else {
            Ordering::Greater
        }
    }

    open spec fn spec_sub(self, other: Self) -> Self {
        vstd::wrapping::u8_specs::wrapping_sub(self, other)
    }

    open spec fn spec_value_type() -> ValueType {
        ValueType::U8
    }

    open spec fn spec_parse(s: Seq<char>) -> Option<Self> {
        match parse_int_spec(s, 0, 0xff, false) {
            Some(v) => Some(v as u8),
            None => None,
        }
    }

    proof fn byte_size_bounds() {
    }

    fn size() -> usize {
        1
    }

    fn value_type() -> ValueType {
        ValueType::U8
    }

    fn from_bytes(bytes: &[u8]) -> Self {
        bytes[0]
    }

    fn to_bytes(&self) -> Vec<u8> {
        let mut r: Vec<u8> = Vec::new();
        r.push(*self);
        r
    }

    fn eq_bytes(&self, bytes: &[u8]) -> bool {
        let other = bytes[0];
        *self == other
    }

    fn cmp_bytes(&self, bytes: &[u8]) -> Ordering {
        let other = bytes[0];
        if *self < other {
            Ordering::Less
        } else if *self == other {
            Ordering::Equal
        } else {
            Ordering::Greater
        }
    }

    fn sub_value(&self, other: &Self) -> Self {
        self.wrapping_sub(*other)
    }

    fn eq_value(&self, other: &Self) -> bool {
        *self == *other
    }

    fn parse(s: &str) -> Option<Self> {
        match parse_decimal(s, 0, 0xff, false) {
            Some(v) => Some(v as u8),
            None => None,
        }
    }
}

impl Scannable for i8 {
    open spec fn byte_size() -> usize {
        1
    }

    open spec fn decode(bytes: Seq<u8>) -> Self {
        signed_val(bytes[0] as int, 0x100) as i8
    }

    open spec fn spec_eq(self, other: Self) -> bool {
        self == other
    }

    open spec fn spec_cmp(self, other: Self) -> Ordering {
        if self < other {
            Ordering::Less
        } else if self == other {
            Ordering::Equal
        } else {
            Ordering::Greater
        }
    }

    open spec fn spec_sub(self, other: Self) -> Self {
        vstd::wrapping::i8_specs::wrapping_sub(self, other)
    }

    open spec fn spec_value_type() -> ValueType {
        ValueType::I8
    }

    open spec fn spec_parse(s: Seq<char>) -> Option<Self> {
        match parse_int_spec(s, -0x80, 0x7f, true) {
            Some(v) => Some(v as i8),
            None => None,
        }
    }

    proof fn byte_size_bounds() {
    }

    fn size() -> usize {
        1
    }

    fn value_type() -> ValueType {
        ValueType::I8
    }

    fn from_bytes(bytes: &[u8]) -> Self {
        u8_to_i8(bytes[0])
    }

    fn to_bytes(&self) -> Vec<u8> {
        let u = i8_to_u8(*self);
        let mut r: Vec<u8> = Vec::new();
        r.push(u);
        r
    }

    fn eq_bytes(&self, bytes: &[u8]) -> bool {
        let other = Self::from_bytes(bytes);
        *self == other
    }

    fn cmp_bytes(&self, bytes: &[u8]) -> Ordering {
        let other = Self::from_bytes(bytes);
        if *self < other {
            Ordering::Less
        } else if *self == other {
            Ordering::Equal
        } else {
            Ordering::Greater
        }
    }

    fn sub_value(&self, other: &Self) -> Self {
        self.wrapping_sub(*other)
    }

    fn eq_value(&self, other: &Self) -> bool {
        *self == *other
    }

    fn parse(s: &str) -> Option<Self> {
        match parse_decimal(s, -0x80, 0x7f, true) {
            Some(v) => Some(v as i8),
            None => None,
        }
    }
}

impl Scannable for u16 {
    open spec fn byte_size() -> usize {
        2
    }

    open spec fn decode(bytes: Seq<u8>) -> Self {
        le16(bytes) as u16
    }

    open spec fn spec_eq(self, other: Self) -> bool {
        self == other
    }

    open spec fn spec_cmp(self, other: Self) -> Ordering {
        if self < other {
            Ordering::Less
        } else if self == other {
            Ordering::Equal
        } else {
            Ordering::Greater
        }
    }

    open spec fn spec_sub(self, other: Self) -> Self {
        vstd::wrapping::u16_specs::wrapping_sub(self, other)
    }

    open spec fn spec_value_type() -> ValueType {
        ValueType::U16
    }

    open spec fn spec_parse(s: Seq<char>) -> Option<Self> {
        match parse_int_spec(s, 0, 0xffff, false) {
            Some(v) => Some(v as u16),
            None => None,
        }
    }

    proof fn byte_size_bounds() {
    }

    fn size() -> usize {
        2
    }

    fn value_type() -> ValueType {
        ValueType::U16
    }

    fn from_bytes(bytes: &[u8]) -> Self {
        read_le16(bytes)
    }

    fn to_bytes(&self) -> Vec<u8> {
        write_le16(*self)
    }

    fn eq_bytes(&self, bytes: &[u8]) -> bool {
        let other = read_le16(bytes);
        *self == other
    }

    fn cmp_bytes(&self, bytes: &[u8]) -> Ordering {
        let other = read_le16(bytes);
        if *self < other {
            Ordering::Less
        } else if *self == other {
            Ordering::Equal
        } else {
            Ordering::Greater
        }
    }

    fn sub_value(&self, other: &Self) -> Self {
        self.wrapping_sub(*other)
    }

    fn eq_value(&self, other: &Self) -> bool {
        *self == *other
    }

    fn parse(s: &str) -> Option<Self> {
        match parse_decimal(s, 0, 0xffff, false) {
            Some(v) => Some(v as u16),
            None => None,
        }
    }
}

impl Scannable for i16 {
    open spec fn byte_size() -> usize {
        2
    }

    open spec fn decode(bytes: Seq<u8>) -> Self {
        signed_val(le16(bytes), 0x1_0000) as i16
    }

    open spec fn spec_eq(self, other: Self) -> bool {
        self == other
    }

    open spec fn spec_cmp(self, other: Self) -> Ordering {
        if self < other {
            Ordering::Less
        } else if self == other {
            Ordering::Equal
        } else {
            Ordering::Greater
        }
    }

    open spec fn spec_sub(self, other: Self) -> Self {
        vstd::wrapping::i16_specs::wrapping_sub(self, other)
    }

    open spec fn spec_value_type() -> ValueType {
        ValueType::I16
    }

    open spec fn spec_parse(s: Seq<char>) -> Option<Self> {
        match parse_int_spec(s, -0x8000, 0x7fff, true) {
            Some(v) => Some(v as i16),
            None => None,
        }
    }

    proof fn byte_size_bounds() {
    }

    fn size() -> usize {
        2
    }

    fn value_type() -> ValueType {
        ValueType::I16
    }

    fn from_bytes(bytes: &[u8]) -> Self {
        u16_to_i16(read_le16(bytes))
    }

    fn to_bytes(&self) -> Vec<u8> {
        write_le16(i16_to_u16(*self))
    }

    fn eq_bytes(&self, bytes: &[u8]) -> bool {
        let other = Self::from_bytes(bytes);
        *self == other
    }

    fn cmp_bytes(&self, bytes: &[u8]) -> Ordering {
        let other = Self::from_bytes(bytes);
        if *self < other {
            Ordering::Less
        } else if *self == other {
            Ordering::Equal
        } else {
            Ordering::Greater
        }
    }

    fn sub_value(&self, other: &Self) -> Self {
        self.wrapping_sub(*other)
    }

    fn eq_value(&self, other: &Self) -> bool {
        *self == *other
    }

    fn parse(s: &str) -> Option<Self> {
        match parse_decimal(s, -0x8000, 0x7fff, true) {
            Some(v) => Some(v as i16),
            None => None,
        }
    }
}

impl Scannable for u32 {
    open spec fn byte_size() -> usize {
        4
    }

    open spec fn decode(bytes: Seq<u8>) -> Self {
        le32(bytes) as u32
    }

    open spec fn spec_eq(self, other: Self) -> bool {
        self == other
    }

    open spec fn spec_cmp(self, other: Self) -> Ordering {
        if self < other {
            Ordering::Less
        } else if self == other {
            Ordering::Equal
        } else {
            Ordering::Greater
        }
    }

    open spec fn spec_sub(self, other: Self) -> Self {
        vstd::wrapping::u32_specs::wrapping_sub(self, other)
    }

    open spec fn spec_value_type() -> ValueType {
        ValueType::U32
    }

    open spec fn spec_parse(s: Seq<char>) -> Option<Self> {
        match parse_int_spec(s, 0, 0xffff_ffff, false) {
            Some(v) => Some(v as u32),
            None => None,
        }
    }

    proof fn byte_size_bounds() {
    }

    fn size() -> usize {
        4
    }

    fn value_type() -> ValueType {
        ValueType::U32
    }

    fn from_bytes(bytes: &[u8]) -> Self {
        read_le32(bytes)
    }

    fn to_bytes(&self) -> Vec<u8> {
        write_le32(*self)
    }

    fn eq_bytes(&self, bytes: &[u8]) -> bool {
        let other = read_le32(bytes);
        *self == other
    }

    fn cmp_bytes(&self, bytes: &[u8]) -> Ordering {
        let other = read_le32(bytes);
        if *self < other {
            Ordering::Less
        } else if *self == other {
            Ordering::Equal
        } else {
            Ordering::Greater
        }
    }

    fn sub_value(&self, other: &Self) -> Self {
        self.wrapping_sub(*other)
    }

    fn eq_value(&self, other: &Self) -> bool {
        *self == *other
    }

    fn parse(s: &str) -> Option<Self> {
        match parse_decimal(s, 0, 0xffff_ffff, false) {
            Some(v) => Some(v as u32),
            None => None,
        }
    }
}

impl Scannable for i32 {
    open spec fn byte_size() -> usize {
        4
    }

    open spec fn decode(bytes: Seq<u8>) -> Self {
        signed_val(le32(bytes), 0x1_0000_0000) as i32
    }

    open spec fn spec_eq(self, other: Self) -> bool {
        self == other
    }

    open spec fn spec_cmp(self, other: Self) -> Ordering {
        if self < other {
            Ordering::Less
        } else if self == other {
            Ordering::Equal
        } else {
            Ordering::Greater
        }
    }

    open spec fn spec_sub(self, other: Self) -> Self {
        vstd::wrapping::i32_specs::wrapping_sub(self, other)
    }

    open spec fn spec_value_type() -> ValueType {
        ValueType::I32
    }

    open spec fn spec_parse(s: Seq<char>) -> Option<Self> {
        match parse_int_spec(s, -0x8000_0000, 0x7fff_ffff, true) {
            Some(v) => Some(v as i32),
            None => None,
        }
    }

    proof fn byte_size_bounds() {
    }

    fn size() -> usize {
        4
    }

    fn value_type() -> ValueType {
        ValueType::I32
    }

    fn from_bytes(bytes: &[u8]) -> Self {
        u32_to_i32(read_le32(bytes))
    }

    fn to_bytes(&self) -> Vec<u8> {
        write_le32(i32_to_u32(*self))
    }

    fn eq_bytes(&self, bytes: &[u8]) -> bool {
        let other = Self::from_bytes(bytes);
        *self == other
    }

    fn cmp_bytes(&self, bytes: &[u8]) -> Ordering {
        let other = Self::from_bytes(bytes);
        if *self < other {
            Ordering::Less
        } else if *self == other {
            Ordering::Equal
        } else {
            Ordering::Greater
        }
    }

    fn sub_value(&self, other: &Self) -> Self {
        self.wrapping_sub(*other)
    }

    fn eq_value(&self, other: &Self) -> bool {
        *self == *other
    }

    fn parse(s: &str) -> Option<Self> {
        match parse_decimal(s, -0x8000_0000, 0x7fff_ffff, true) {
            Some(v) => Some(v as i32),
            None => None,
        }
    }
}

impl Scannable for u64 {
    open spec fn byte_size() -> usize {
        8
    }

    open spec fn decode(bytes: Seq<u8>) -> Self {
        le64(bytes) as u64
    }

    open spec fn spec_eq(self, other: Self) -> bool {
        self == other
    }

    open spec fn spec_cmp(self, other: Self) -> Ordering {
        if self < other {
            Ordering::Less
        } else if self == other {
            Ordering::Equal
        } else {
            Ordering::Greater
        }
    }

    open spec fn spec_sub(self, other: Self) -> Self {
        vstd::wrapping::u64_specs::wrapping_sub(self, other)
    }

    open spec fn spec_value_type() -> ValueType {
        ValueType::U64
    }

    open spec fn spec_parse(s: Seq<char>) -> Option<Self> {
        match parse_int_spec(s, 0, 0xffff_ffff_ffff_ffff, false) {
            Some(v) => Some(v as u64),
            None => None,
        }
    }

    proof fn byte_size_bounds() {
    }

    fn size() -> usize {
        8
    }

    fn value_type() -> ValueType {
        ValueType::U64
    }

    fn from_bytes(bytes: &[u8]) -> Self {
        read_le64(bytes)
    }

    fn to_bytes(&self) -> Vec<u8> {
        write_le64(*self)
    }

    fn eq_bytes(&self, bytes: &[u8]) -> bool {
        let other = read_le64(bytes);
        *self == other
    }

    fn cmp_bytes(&self, bytes: &[u8]) -> Ordering {
        let other = read_le64(bytes);
        if *self < other {
            Ordering::Less
        } else if *self == other {
            Ordering::Equal
        } else {
            Ordering::Greater
        }
    }

    fn sub_value(&self, other: &Self) -> Self {
        self.wrapping_sub(*other)
    }

    fn eq_value(&self, other: &Self) -> bool {
        *self == *other
    }

    fn parse(s: &str) -> Option<Self> {
        match parse_decimal(s, 0, 0xffff_ffff_ffff_ffff, false) {
            Some(v) => Some(v as u64),
            None => None,
        }
    }
}

impl Scannable for i64 {
    open spec fn byte_size() -> usize {
        8
    }

    open spec fn decode(bytes: Seq<u8>) -> Self {
        signed_val(le64(bytes), 0x1_0000_0000_0000_0000) as i64
    }

    open spec fn spec_eq(self, other: Self) -> bool {
        self == other
    }

    open spec fn spec_cmp(self, other: Self) -> Ordering {
        if self < other {
            Ordering::Less
        } else if self == other {
            Ordering::Equal
        } else {
            Ordering::Greater
        }
    }

    open spec fn spec_sub(self, other: Self) -> Self {
        vstd::wrapping::i64_specs::wrapping_sub(self, other)
    }

    open spec fn spec_value_type() -> ValueType {
        ValueType::I64
    }

    open spec fn spec_parse(s: Seq<char>) -> Option<Self> {
        match parse_int_spec(s, -0x8000_0000_0000_0000, 0x7fff_ffff_ffff_ffff, true) {
            Some(v) => Some(v as i64),
            None => None,
        }
    }

    proof fn byte_size_bounds() {
    }

    fn size() -> usize {
        8
    }

    fn value_type() -> ValueType {
        ValueType::I64
    }

    fn from_bytes(bytes: &[u8]) -> Self {
        u64_to_i64(read_le64(bytes))
    }

    fn to_bytes(&self) -> Vec<u8> {
        write_le64(i64_to_u64(*self))
    }

    fn eq_bytes(&self, bytes: &[u8]) -> bool {
        let other = Self::from_bytes(bytes);
        *self == other
    }

    fn cmp_bytes(&self, bytes: &[u8]) -> Ordering {
        let other = Self::from_bytes(bytes);
        if *self < other {
            Ordering::Less
        } else if *self == other {
            Ordering::Equal
        } else {
            Ordering::Greater
        }
    }

    fn sub_value(&self, other: &Self) -> Self {
        self.wrapping_sub(*other)
    }

    fn eq_value(&self, other: &Self) -> bool {
        *self == *other
    }

    fn parse(s: &str) -> Option<Self> {
        match parse_decimal(s, -0x8000_0000_0000_0000, 0x7fff_ffff_ffff_ffff, true) {
            Some(v) => Some(v as i64),
            None => None,
        }
    }
}

} // verus!
