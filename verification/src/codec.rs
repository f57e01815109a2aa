//! The byte encoding under which records are stored.
//!
//! A record is the concatenation of its fields. An integer is written in
//! little-endian order, a status as one byte, and a text as the length of its
//! UTF-8 form in four bytes followed by that form. An encoding may take at most
//! `MAX_RECORD_SIZE` bytes.

use crate::error::{Collection, Error};
use crate::records::{Employee, EmployeeView, LeaveRequest, LeaveRequestView, LeaveStatus};
use vstd::bytes::{
    lemma_auto_spec_u32_to_from_le_bytes, lemma_auto_spec_u64_to_from_le_bytes,
    spec_u32_from_le_bytes, spec_u32_to_le_bytes, spec_u64_from_le_bytes, spec_u64_to_le_bytes,
    u32_from_le_bytes, u32_to_le_bytes, u64_from_le_bytes, u64_to_le_bytes,
};
use vstd::prelude::*;
use vstd::slice::{slice_subrange, slice_to_vec};
use vstd::string::{StrSliceExecFns, StringSliceAdditionalSpecFns};
use vstd::utf8::{encode_utf8, encode_utf8_decode_utf8, encode_utf8_valid_utf8, valid_utf8};

verus! {

/// The most bytes that the encoding of one record may take.
pub const MAX_RECORD_SIZE: usize = 1024;

/// The encoding of a text: the length of its UTF-8 form, then that form.
pub open spec fn text_field(text: Seq<char>) -> Seq<u8> {
    spec_u32_to_le_bytes(encode_utf8(text).len() as u32) + encode_utf8(text)
}

/// The byte that stands for a status.
pub open spec fn status_byte(status: LeaveStatus) -> u8 {
    match status {
        LeaveStatus::Pending => 0,
        LeaveStatus::Approved => 1,
        LeaveStatus::Rejected => 2,
    }
}

/// The encoding of an employee, whatever its length.
pub open spec fn employee_bytes(employee: EmployeeView) -> Seq<u8> {
    spec_u64_to_le_bytes(employee.id) + spec_u32_to_le_bytes(employee.remaining_leave_days)
        + text_field(employee.name) + text_field(employee.department) + text_field(
        employee.position,
    )
}

/// Whether the encoding of `employee` may be stored.
pub open spec fn employee_fits(employee: EmployeeView) -> bool {
    employee_bytes(employee).len() <= MAX_RECORD_SIZE
}

/// The encoding of a leave request, whatever its length.
pub open spec fn leave_request_bytes(request: LeaveRequestView) -> Seq<u8> {
    spec_u64_to_le_bytes(request.id) + spec_u64_to_le_bytes(request.employee_id)
        + spec_u64_to_le_bytes(request.start_date) + spec_u64_to_le_bytes(request.end_date)
        + seq![status_byte(request.status)] + text_field(request.reason)
}

/// Whether the encoding of `request` may be stored.
pub open spec fn leave_request_fits(request: LeaveRequestView) -> bool {
    leave_request_bytes(request).len() <= MAX_RECORD_SIZE
}

/// The employee that `bytes` are the encoding of, if they are that of one
/// that fits.
pub open spec fn decoded_employee(bytes: Seq<u8>) -> Option<EmployeeView> {
    if exists|v: EmployeeView| employee_fits(v) && employee_bytes(v) == bytes {
        Some(choose|v: EmployeeView| employee_fits(v) && employee_bytes(v) == bytes)
    } else {
        None
    }
}

/// The leave request that `bytes` are the encoding of, if they are that of
/// one that fits.
pub open spec fn decoded_leave_request(bytes: Seq<u8>) -> Option<LeaveRequestView> {
    if exists|v: LeaveRequestView| leave_request_fits(v) && leave_request_bytes(v) == bytes {
        Some(choose|v: LeaveRequestView| leave_request_fits(v) && leave_request_bytes(v) == bytes)
    } else {
        None
    }
}

/// Whether `field` stands in `bytes` from position `at` on.
pub open spec fn field_at(bytes: Seq<u8>, at: int, field: Seq<u8>) -> bool {
    0 <= at && at + field.len() <= bytes.len() && bytes.subrange(at, at + field.len()) == field
}

/// `String::from_utf8`: a text comes back exactly when the bytes are valid
/// UTF-8, and its UTF-8 form is then those bytes.
#[verifier::external_body]
fn string_from_utf8(bytes: Vec<u8>) -> (text: Option<String>)
    ensures
        text is Some <==> valid_utf8(bytes@),
        text matches Some(t) ==> encode_utf8(t@) == bytes@,
{
    String::from_utf8(bytes).ok()
}

/// Two integers with the same eight bytes are the same integer.
proof fn lemma_u64_field_unique(bytes: Seq<u8>, at: int, a: u64, b: u64)
    requires
        field_at(bytes, at, spec_u64_to_le_bytes(a)),
        field_at(bytes, at, spec_u64_to_le_bytes(b)),
    ensures
        a == b,
{
    lemma_auto_spec_u64_to_from_le_bytes();
    assert(spec_u64_to_le_bytes(a) == spec_u64_to_le_bytes(b));
    assert(spec_u64_from_le_bytes(spec_u64_to_le_bytes(a)) == a);
}

/// Two integers with the same four bytes are the same integer.
proof fn lemma_u32_field_unique(bytes: Seq<u8>, at: int, a: u32, b: u32)
    requires
        field_at(bytes, at, spec_u32_to_le_bytes(a)),
        field_at(bytes, at, spec_u32_to_le_bytes(b)),
    ensures
        a == b,
{
    lemma_auto_spec_u32_to_from_le_bytes();
    assert(spec_u32_to_le_bytes(a) == spec_u32_to_le_bytes(b));
    assert(spec_u32_from_le_bytes(spec_u32_to_le_bytes(a)) == a);
}

/// The length of a text field, and the two parts it is made of.
proof fn lemma_text_field_parts(bytes: Seq<u8>, at: int, text: Seq<char>)
    requires
        field_at(bytes, at, text_field(text)),
    ensures
        text_field(text).len() == 4 + encode_utf8(text).len(),
        field_at(bytes, at, spec_u32_to_le_bytes(encode_utf8(text).len() as u32)),
        field_at(bytes, at + 4, encode_utf8(text)),
{
    lemma_auto_spec_u32_to_from_le_bytes();
    let prefix = spec_u32_to_le_bytes(encode_utf8(text).len() as u32);
    let field = text_field(text);
    assert(field.subrange(0, 4) == prefix);
    assert(field.subrange(4, field.len() as int) == encode_utf8(text));
    assert(bytes.subrange(at, at + 4) == field.subrange(0, 4));
    assert(bytes.subrange(at + 4, at + field.len()) == field.subrange(4, field.len() as int));
}

/// Two texts whose fields stand at the same place are the same text.
proof fn lemma_text_field_unique(bytes: Seq<u8>, at: int, a: Seq<char>, b: Seq<char>)
    requires
        field_at(bytes, at, text_field(a)),
        field_at(bytes, at, text_field(b)),
        encode_utf8(a).len() <= u32::MAX,
        encode_utf8(b).len() <= u32::MAX,
    ensures
        a == b,
{
    lemma_text_field_parts(bytes, at, a);
    lemma_text_field_parts(bytes, at, b);
    lemma_u32_field_unique(
        bytes,
        at,
        encode_utf8(a).len() as u32,
        encode_utf8(b).len() as u32,
    );
    assert(encode_utf8(a) == encode_utf8(b));
    encode_utf8_decode_utf8(a);
    encode_utf8_decode_utf8(b);
}

/// Where the fields of an encoded employee stand.
pub proof fn lemma_employee_shape(employee: EmployeeView)
    ensures
        ({
            let bytes = employee_bytes(employee);
            let department_at: int = 12 + text_field(employee.name).len() as int;
            let position_at: int = department_at + text_field(employee.department).len();
            &&& field_at(bytes, 0, spec_u64_to_le_bytes(employee.id))
            &&& field_at(bytes, 8, spec_u32_to_le_bytes(employee.remaining_leave_days))
            &&& field_at(bytes, 12, text_field(employee.name))
            &&& field_at(bytes, department_at, text_field(employee.department))
            &&& field_at(bytes, position_at, text_field(employee.position))
            &&& bytes.len() == position_at + text_field(employee.position).len()
        }),
{
    lemma_auto_spec_u64_to_from_le_bytes();
    lemma_auto_spec_u32_to_from_le_bytes();
    let bytes = employee_bytes(employee);
    let department_at: int = 12 + text_field(employee.name).len() as int;
    let position_at: int = department_at + text_field(employee.department).len();
    assert(bytes.subrange(0, 8) == spec_u64_to_le_bytes(employee.id));
    assert(bytes.subrange(8, 12) == spec_u32_to_le_bytes(employee.remaining_leave_days));
    assert(bytes.subrange(12, department_at) == text_field(employee.name));
    assert(bytes.subrange(department_at, position_at) == text_field(
        employee.department,
    ));
    assert(bytes.subrange(position_at, bytes.len() as int) == text_field(
        employee.position,
    ));
}

/// Bytes in which the fields of `employee` stand one after the other, and
/// nothing else, are its encoding.
proof fn lemma_employee_assembled(bytes: Seq<u8>, employee: EmployeeView)
    requires
        ({
            let department_at: int = 12 + text_field(employee.name).len() as int;
            let position_at: int = department_at + text_field(employee.department).len();
            &&& field_at(bytes, 0, spec_u64_to_le_bytes(employee.id))
            &&& field_at(bytes, 8, spec_u32_to_le_bytes(employee.remaining_leave_days))
            &&& field_at(bytes, 12, text_field(employee.name))
            &&& field_at(bytes, department_at, text_field(employee.department))
            &&& field_at(bytes, position_at, text_field(employee.position))
            &&& bytes.len() == position_at + text_field(employee.position).len()
        }),
    ensures
        bytes == employee_bytes(employee),
{
    lemma_auto_spec_u64_to_from_le_bytes();
    lemma_auto_spec_u32_to_from_le_bytes();
    let department_at: int = 12 + text_field(employee.name).len() as int;
    let position_at: int = department_at + text_field(employee.department).len();
    assert(bytes == bytes.subrange(0, 8) + bytes.subrange(8, 12) + bytes.subrange(
        12,
        department_at,
    ) + bytes.subrange(department_at, position_at) + bytes.subrange(
        position_at,
        bytes.len() as int,
    ));
}

/// No two employees that fit have the same encoding.
pub proof fn lemma_employee_bytes_injective(a: EmployeeView, b: EmployeeView)
    requires
        employee_fits(a),
        employee_fits(b),
        employee_bytes(a) == employee_bytes(b),
    ensures
        a == b,
{
    let bytes = employee_bytes(a);
    lemma_employee_shape(a);
    lemma_employee_shape(b);
    lemma_u64_field_unique(bytes, 0, a.id, b.id);
    lemma_u32_field_unique(bytes, 8, a.remaining_leave_days, b.remaining_leave_days);
    lemma_text_field_parts(bytes, 12, a.name);
    lemma_text_field_parts(bytes, 12, b.name);
    lemma_text_field_unique(bytes, 12, a.name, b.name);
    let department_at: int = 12 + text_field(a.name).len() as int;
    lemma_text_field_parts(bytes, department_at, a.department);
    lemma_text_field_parts(bytes, department_at, b.department);
    lemma_text_field_unique(bytes, department_at, a.department, b.department);
    let position_at: int = department_at + text_field(a.department).len();
    lemma_text_field_parts(bytes, position_at, a.position);
    lemma_text_field_parts(bytes, position_at, b.position);
    lemma_text_field_unique(bytes, position_at, a.position, b.position);
}

/// Decoding the encoding of an employee that fits gives that employee.
pub proof fn lemma_employee_round_trip(employee: EmployeeView)
    requires
        employee_fits(employee),
    ensures
        decoded_employee(employee_bytes(employee)) == Some(employee),
{
    let found = choose|v: EmployeeView|
        employee_fits(v) && employee_bytes(v) == employee_bytes(employee);
    lemma_employee_bytes_injective(found, employee);
}

/// Appends the field of `text` to `out`.
fn write_text(out: &mut Vec<u8>, text: &String)
    requires
        encode_utf8(text@).len() <= u32::MAX,
    ensures
        final(out)@ == old(out)@ + text_field(text@),
{
    let mut raw = text.as_str().as_bytes_vec();
    let mut length = u32_to_le_bytes(raw.len() as u32);
    out.append(&mut length);
    out.append(&mut raw);
    assert(out@ == old(out)@ + text_field(text@));
}

/// Reads the integer that stands in `bytes` at `at`, if eight bytes are left there.
fn read_u64(bytes: &[u8], at: usize) -> (value: Option<u64>)
    requires
        at <= bytes@.len(),
    ensures
        match value {
            Some(v) => at + 8 <= bytes@.len() && field_at(
                bytes@,
                at as int,
                spec_u64_to_le_bytes(v),
            ),
            None => bytes@.len() - at < 8,
        },
{
    if bytes.len() - at < 8 {
        return None;
    }
    let v = u64_from_le_bytes(slice_subrange(bytes, at, at + 8));
    proof {
        lemma_auto_spec_u64_to_from_le_bytes();
    }
    Some(v)
}

/// Reads the integer that stands in `bytes` at `at`, if four bytes are left there.
fn read_u32(bytes: &[u8], at: usize) -> (value: Option<u32>)
    requires
        at <= bytes@.len(),
    ensures
        match value {
            Some(v) => at + 4 <= bytes@.len() && field_at(
                bytes@,
                at as int,
                spec_u32_to_le_bytes(v),
            ),
            None => bytes@.len() - at < 4,
        },
{
    if bytes.len() - at < 4 {
        return None;
    }
    let v = u32_from_le_bytes(slice_subrange(bytes, at, at + 4));
    proof {
        lemma_auto_spec_u32_to_from_le_bytes();
    }
    Some(v)
}

/// Reads the text whose field stands in `bytes` at `at`, and says where the
/// field ends. There is none where no text has its field there.
fn read_text(bytes: &[u8], at: usize) -> (found: Option<(String, usize)>)
    requires
        at <= bytes@.len(),
    ensures
        match found {
            Some((text, end)) => {
                &&& field_at(bytes@, at as int, text_field(text@))
                &&& end == at + text_field(text@).len()
                &&& encode_utf8(text@).len() <= u32::MAX
            },
            None => forall|t: Seq<char>|
                encode_utf8(t).len() <= u32::MAX ==> !field_at(
                    bytes@,
                    at as int,
                    #[trigger] text_field(t),
                ),
        },
{
    proof {
        lemma_auto_spec_u32_to_from_le_bytes();
    }
    let length = match read_u32(bytes, at) {
        Some(length) => length as usize,
        None => {
            return None;
        },
    };
    let total = bytes.len();
    let start = at + 4;
    if total - start < length {
        assert forall|t: Seq<char>| encode_utf8(t).len() <= u32::MAX implies !field_at(
            bytes@,
            at as int,
            #[trigger] text_field(t),
        ) by {
            if field_at(bytes@, at as int, text_field(t)) {
                lemma_text_field_parts(bytes@, at as int, t);
                lemma_u32_field_unique(
                    bytes@,
                    at as int,
                    length as u32,
                    encode_utf8(t).len() as u32,
                );
            }
        }
        return None;
    }
    let raw = slice_to_vec(slice_subrange(bytes, start, start + length));
    match string_from_utf8(raw) {
        Some(text) => {
            proof {
                assert(bytes@.subrange(at as int, at + 4 + length) == bytes@.subrange(
                    at as int,
                    at + 4,
                ) + bytes@.subrange(at + 4, at + 4 + length));
            }
            Some((text, start + length))
        },
        None => {
            assert forall|t: Seq<char>| encode_utf8(t).len() <= u32::MAX implies !field_at(
                bytes@,
                at as int,
                #[trigger] text_field(t),
            ) by {
                if field_at(bytes@, at as int, text_field(t)) {
                    lemma_text_field_parts(bytes@, at as int, t);
                    lemma_u32_field_unique(
                        bytes@,
                        at as int,
                        length as u32,
                        encode_utf8(t).len() as u32,
                    );
                    encode_utf8_valid_utf8(t);
                }
            }
            None
        },
    }
}

impl Employee {
    /// The bytes under which this employee is stored. An employee whose
    /// encoding would take more than `MAX_RECORD_SIZE` bytes is refused.
    pub fn to_bytes(&self) -> (bytes: Result<Vec<u8>, Error>)
        ensures
            match bytes {
                Ok(b) => employee_fits(self@) && b@ == employee_bytes(self@),
                Err(e) => !employee_fits(self@) && e == (Error::SerializationError {
                    collection: Collection::Employees,
                }),
            },
    {
        proof {
            lemma_auto_spec_u64_to_from_le_bytes();
            lemma_auto_spec_u32_to_from_le_bytes();
        }
        let refused = Err(Error::SerializationError { collection: Collection::Employees });
        let mut room: usize = MAX_RECORD_SIZE - 24;
        let name_length = self.name.as_str().as_bytes().len();
        if name_length > room {
            return refused;
        }
        room = room - name_length;
        let department_length = self.department.as_str().as_bytes().len();
        if department_length > room {
            return refused;
        }
        room = room - department_length;
        let position_length = self.position.as_str().as_bytes().len();
        if position_length > room {
            return refused;
        }
        let mut out = u64_to_le_bytes(self.id);
        let mut days = u32_to_le_bytes(self.remaining_leave_days);
        out.append(&mut days);
        write_text(&mut out, &self.name);
        write_text(&mut out, &self.department);
        write_text(&mut out, &self.position);
        Ok(out)
    }

    /// The employee that `bytes` encode. Bytes that are the encoding of no
    /// employee are refused: none is made up in their place.
    pub fn from_bytes(bytes: &[u8]) -> (employee: Result<Employee, Error>)
        ensures
            match employee {
                Ok(e) => decoded_employee(bytes@) == Some(e@),
                Err(e) => decoded_employee(bytes@) is None && e == (Error::DeserializationError {
                    collection: Collection::Employees,
                }),
            },
    {
        let refused = Err(Error::DeserializationError { collection: Collection::Employees });
        proof {
            assert forall|v: EmployeeView| #[trigger] employee_bytes(v) == bytes@ implies ({
                let department_at: int = 12 + text_field(v.name).len() as int;
                let position_at: int = department_at + text_field(v.department).len();
                &&& field_at(bytes@, 0, spec_u64_to_le_bytes(v.id))
                &&& field_at(bytes@, 8, spec_u32_to_le_bytes(v.remaining_leave_days))
                &&& field_at(bytes@, 12, text_field(v.name))
                &&& field_at(bytes@, department_at, text_field(v.department))
                &&& field_at(bytes@, position_at, text_field(v.position))
                &&& bytes@.len() == position_at + text_field(v.position).len()
            }) by {
                lemma_employee_shape(v);
            }
        }
        if bytes.len() > MAX_RECORD_SIZE {
            return refused;
        }
        let id = match read_u64(bytes, 0) {
            Some(id) => id,
            None => {
                return refused;
            },
        };
        let remaining_leave_days = match read_u32(bytes, 8) {
            Some(days) => days,
            None => {
                return refused;
            },
        };
        let (name, department_at) = match read_text(bytes, 12) {
            Some(found) => found,
            None => {
                return refused;
            },
        };
        proof {
            assert forall|v: EmployeeView|
                employee_fits(v) && #[trigger] employee_bytes(v) == bytes@ implies v.name
                == name@ by {
                lemma_text_field_unique(bytes@, 12, v.name, name@);
            }
        }
        let (department, position_at) = match read_text(bytes, department_at) {
            Some(found) => found,
            None => {
                return refused;
            },
        };
        proof {
            assert forall|v: EmployeeView|
                employee_fits(v) && #[trigger] employee_bytes(v) == bytes@ implies v.department
                == department@ by {
                lemma_text_field_unique(bytes@, department_at as int, v.department, department@);
            }
        }
        let (position, end) = match read_text(bytes, position_at) {
            Some(found) => found,
            None => {
                return refused;
            },
        };
        proof {
            assert forall|v: EmployeeView|
                employee_fits(v) && #[trigger] employee_bytes(v) == bytes@ implies v.position
                == position@ by {
                lemma_text_field_unique(bytes@, position_at as int, v.position, position@);
            }
        }
        if end != bytes.len() {
            return refused;
        }
        let employee = Employee { id, name, department, position, remaining_leave_days };
        proof {
            lemma_employee_assembled(bytes@, employee@);
            lemma_employee_round_trip(employee@);
        }
        Ok(employee)
    }
}

/// Where the fields of an encoded leave request stand.
pub proof fn lemma_leave_request_shape(request: LeaveRequestView)
    ensures
        ({
            let bytes = leave_request_bytes(request);
            &&& field_at(bytes, 0, spec_u64_to_le_bytes(request.id))
            &&& field_at(bytes, 8, spec_u64_to_le_bytes(request.employee_id))
            &&& field_at(bytes, 16, spec_u64_to_le_bytes(request.start_date))
            &&& field_at(bytes, 24, spec_u64_to_le_bytes(request.end_date))
            &&& bytes.len() > 32
            &&& bytes[32] == status_byte(request.status)
            &&& field_at(bytes, 33, text_field(request.reason))
            &&& bytes.len() == 33 + text_field(request.reason).len()
        }),
{
    lemma_auto_spec_u64_to_from_le_bytes();
    let bytes = leave_request_bytes(request);
    assert(bytes.subrange(0, 8) == spec_u64_to_le_bytes(request.id));
    assert(bytes.subrange(8, 16) == spec_u64_to_le_bytes(request.employee_id));
    assert(bytes.subrange(16, 24) == spec_u64_to_le_bytes(request.start_date));
    assert(bytes.subrange(24, 32) == spec_u64_to_le_bytes(request.end_date));
    assert(bytes.subrange(33, bytes.len() as int) == text_field(request.reason));
}

/// Bytes in which the fields of `request` stand one after the other, and
/// nothing else, are its encoding.
proof fn lemma_leave_request_assembled(bytes: Seq<u8>, request: LeaveRequestView)
    requires
        field_at(bytes, 0, spec_u64_to_le_bytes(request.id)),
        field_at(bytes, 8, spec_u64_to_le_bytes(request.employee_id)),
        field_at(bytes, 16, spec_u64_to_le_bytes(request.start_date)),
        field_at(bytes, 24, spec_u64_to_le_bytes(request.end_date)),
        bytes.len() > 32,
        bytes[32] == status_byte(request.status),
        field_at(bytes, 33, text_field(request.reason)),
        bytes.len() == 33 + text_field(request.reason).len(),
    ensures
        bytes == leave_request_bytes(request),
{
    lemma_auto_spec_u64_to_from_le_bytes();
    assert(bytes == bytes.subrange(0, 8) + bytes.subrange(8, 16) + bytes.subrange(16, 24)
        + bytes.subrange(24, 32) + seq![bytes[32]] + bytes.subrange(33, bytes.len() as int));
}

/// No two leave requests that fit have the same encoding.
pub proof fn lemma_leave_request_bytes_injective(a: LeaveRequestView, b: LeaveRequestView)
    requires
        leave_request_fits(a),
        leave_request_fits(b),
        leave_request_bytes(a) == leave_request_bytes(b),
    ensures
        a == b,
{
    let bytes = leave_request_bytes(a);
    lemma_leave_request_shape(a);
    lemma_leave_request_shape(b);
    lemma_u64_field_unique(bytes, 0, a.id, b.id);
    lemma_u64_field_unique(bytes, 8, a.employee_id, b.employee_id);
    lemma_u64_field_unique(bytes, 16, a.start_date, b.start_date);
    lemma_u64_field_unique(bytes, 24, a.end_date, b.end_date);
    lemma_text_field_parts(bytes, 33, a.reason);
    lemma_text_field_parts(bytes, 33, b.reason);
    lemma_text_field_unique(bytes, 33, a.reason, b.reason);
}

/// Decoding the encoding of a leave request that fits gives that request.
pub proof fn lemma_leave_request_round_trip(request: LeaveRequestView)
    requires
        leave_request_fits(request),
    ensures
        decoded_leave_request(leave_request_bytes(request)) == Some(request),
{
    let found = choose|v: LeaveRequestView|
        leave_request_fits(v) && leave_request_bytes(v) == leave_request_bytes(request);
    lemma_leave_request_bytes_injective(found, request);
}

/// Reads the status whose byte stands in `bytes` at `at`.
fn read_status(bytes: &[u8], at: usize) -> (status: Option<LeaveStatus>)
    ensures
        match status {
            Some(s) => at < bytes@.len() && bytes@[at as int] == status_byte(s),
            None => at >= bytes@.len() || bytes@[at as int] > 2,
        },
{
    if at >= bytes.len() {
        return None;
    }
    let byte = bytes[at];
    if byte == 0 {
        Some(LeaveStatus::Pending)
    } else if byte == 1 {
        Some(LeaveStatus::Approved)
    } else if byte == 2 {
        Some(LeaveStatus::Rejected)
    } else {
        None
    }
}

impl LeaveRequest {
    /// The bytes under which this leave request is stored. A request whose
    /// encoding would take more than `MAX_RECORD_SIZE` bytes is refused.
    pub fn to_bytes(&self) -> (bytes: Result<Vec<u8>, Error>)
        ensures
            match bytes {
                Ok(b) => leave_request_fits(self@) && b@ == leave_request_bytes(self@),
                Err(e) => !leave_request_fits(self@) && e == (Error::SerializationError {
                    collection: Collection::LeaveRequests,
                }),
            },
    {
        proof {
            lemma_auto_spec_u64_to_from_le_bytes();
            lemma_auto_spec_u32_to_from_le_bytes();
        }
        let reason_length = self.reason.as_str().as_bytes().len();
        if reason_length > MAX_RECORD_SIZE - 37 {
            return Err(Error::SerializationError { collection: Collection::LeaveRequests });
        }
        let mut out = u64_to_le_bytes(self.id);
        let mut employee_id = u64_to_le_bytes(self.employee_id);
        out.append(&mut employee_id);
        let mut start_date = u64_to_le_bytes(self.start_date);
        out.append(&mut start_date);
        let mut end_date = u64_to_le_bytes(self.end_date);
        out.append(&mut end_date);
        out.push(
            match self.status {
                LeaveStatus::Pending => 0,
                LeaveStatus::Approved => 1,
                LeaveStatus::Rejected => 2,
            },
        );
        write_text(&mut out, &self.reason);
        Ok(out)
    }

    /// The leave request that `bytes` encode. Bytes that are the encoding of
    /// no leave request are refused: none is made up in their place.
    pub fn from_bytes(bytes: &[u8]) -> (request: Result<LeaveRequest, Error>)
        ensures
            match request {
                Ok(r) => decoded_leave_request(bytes@) == Some(r@),
                Err(e) => decoded_leave_request(bytes@) is None && e == (
                Error::DeserializationError { collection: Collection::LeaveRequests }),
            },
    {
        let refused = Err(Error::DeserializationError { collection: Collection::LeaveRequests });
        proof {
            assert forall|v: LeaveRequestView| #[trigger]
                leave_request_bytes(v) == bytes@ implies ({
                &&& field_at(bytes@, 0, spec_u64_to_le_bytes(v.id))
                &&& bytes@.len() > 32
                &&& bytes@[32] == status_byte(v.status)
                &&& field_at(bytes@, 33, text_field(v.reason))
                &&& bytes@.len() == 33 + text_field(v.reason).len()
            }) by {
                lemma_leave_request_shape(v);
            }
        }
        if bytes.len() > MAX_RECORD_SIZE {
            return refused;
        }
        let id = match read_u64(bytes, 0) {
            Some(id) => id,
            None => {
                return refused;
            },
        };
        let employee_id = match read_u64(bytes, 8) {
            Some(employee_id) => employee_id,
            None => {
                return refused;
            },
        };
        let start_date = match read_u64(bytes, 16) {
            Some(start_date) => start_date,
            None => {
                return refused;
            },
        };
        let end_date = match read_u64(bytes, 24) {
            Some(end_date) => end_date,
            None => {
                return refused;
            },
        };
        let status = match read_status(bytes, 32) {
            Some(status) => status,
            None => {
                return refused;
            },
        };
        let (reason, end) = match read_text(bytes, 33) {
            Some(found) => found,
            None => {
                return refused;
            },
        };
        proof {
            assert forall|v: LeaveRequestView|
                leave_request_fits(v) && #[trigger] leave_request_bytes(v) == bytes@ implies v.reason
                == reason@ by {
                lemma_text_field_unique(bytes@, 33, v.reason, reason@);
            }
        }
        if end != bytes.len() {
            return refused;
        }
        let request = LeaveRequest { id, employee_id, start_date, end_date, reason, status };
        proof {
            lemma_leave_request_assembled(bytes@, request@);
            lemma_leave_request_round_trip(request@);
        }
        Ok(request)
    }
}

} // verus!
