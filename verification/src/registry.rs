//! The registry: the identifier counter and the two collections of records,
//! and the operations on them.
//!
//! An operation that changes the registry takes it by `&mut`: it runs to its
//! end before the next begins, and each changes at most one record of one
//! collection. Nothing is checked across the collections: a leave request
//! may name an employee that is not on record, and deleting an employee
//! leaves its leave requests.

use crate::codec::{
    decoded_employee, decoded_leave_request, employee_fits, leave_request_fits,
    lemma_employee_round_trip, lemma_leave_request_round_trip, lemma_leave_request_shape,
};
use crate::error::{Collection, Error};
use crate::model::{
    lemma_listing_is_entries_in_key_order, updated_employee, updated_leave_request, with_status,
    RegistryView,
};
use crate::records::{
    employee_views, leave_request_views, Employee, EmployeeView, LeaveRequest, LeaveRequestView,
    LeaveStatus,
};
use crate::storage::{
    cell_get, cell_set, cell_value, lists_in_key_order, map_entries, map_get, map_insert,
    map_iter, map_remove, raw_entries, IdCell, RecordMap,
};
use vstd::prelude::*;

verus! {

/// The employees that stored entries decode to.
pub open spec fn stored_employees(entries: Map<u64, Seq<u8>>) -> Map<u64, EmployeeView> {
    Map::new(
        |id: u64| entries.contains_key(id),
        |id: u64| decoded_employee(entries[id]).unwrap(),
    )
}

/// The leave requests that stored entries decode to.
pub open spec fn stored_leave_requests(entries: Map<u64, Seq<u8>>) -> Map<u64, LeaveRequestView> {
    Map::new(
        |id: u64| entries.contains_key(id),
        |id: u64| decoded_leave_request(entries[id]).unwrap(),
    )
}

/// Whether every entry is the encoding of an employee.
pub open spec fn employees_decode(entries: Map<u64, Seq<u8>>) -> bool {
    forall|id: u64| #[trigger] entries.contains_key(id) ==> decoded_employee(entries[id]) is Some
}

/// Whether every entry is the encoding of a leave request.
pub open spec fn leave_requests_decode(entries: Map<u64, Seq<u8>>) -> bool {
    forall|id: u64| #[trigger]
        entries.contains_key(id) ==> decoded_leave_request(entries[id]) is Some
}

/// What a counter and two maps of stored entries make up together.
pub open spec fn assembled(
    next_id: u64,
    leave_requests: Map<u64, Seq<u8>>,
    employees: Map<u64, Seq<u8>>,
) -> RegistryView {
    RegistryView {
        next_id,
        employees: stored_employees(employees),
        leave_requests: stored_leave_requests(leave_requests),
    }
}

/// What is wrong with a counter and two maps of stored entries, if anything
/// is: an entry that is not the encoding of a record, among the employees
/// first, or else records that are not well formed together.
pub open spec fn fault_of_parts(
    next_id: u64,
    leave_requests: Map<u64, Seq<u8>>,
    employees: Map<u64, Seq<u8>>,
) -> Option<Error> {
    if !employees_decode(employees) {
        Some(Error::DeserializationError { collection: Collection::Employees })
    } else if !leave_requests_decode(leave_requests) {
        Some(Error::DeserializationError { collection: Collection::LeaveRequests })
    } else if !assembled(next_id, leave_requests, employees).well_formed() {
        Some(Error::InvalidInput)
    } else {
        None
    }
}

/// Whether each employee among `entries` is stored under its own identifier,
/// which lies below `next_id`.
spec fn employees_in_place(next_id: u64, entries: Map<u64, Seq<u8>>) -> bool {
    forall|id: u64| #[trigger]
        entries.contains_key(id) ==> {
            &&& decoded_employee(entries[id]).unwrap().id == id
            &&& id < next_id
        }
}

/// Whether each leave request among `entries` is stored under its own
/// identifier, which lies below `next_id`.
spec fn leave_requests_in_place(next_id: u64, entries: Map<u64, Seq<u8>>) -> bool {
    forall|id: u64| #[trigger]
        entries.contains_key(id) ==> {
            &&& decoded_leave_request(entries[id]).unwrap().id == id
            &&& id < next_id
        }
}

/// Decodes every entry of a listing of `entries` as an employee, and says
/// whether each stands under its own identifier below `next_id`.
fn check_employees(
    listing: &Vec<(u64, Vec<u8>)>,
    next_id: u64,
    Ghost(entries): Ghost<Map<u64, Seq<u8>>>,
) -> (checked: Result<bool, Error>)
    requires
        lists_in_key_order(raw_entries(listing@), entries),
    ensures
        match checked {
            Ok(in_place) => employees_decode(entries) && in_place == employees_in_place(
                next_id,
                entries,
            ),
            Err(error) => !employees_decode(entries) && error == (Error::DeserializationError {
                collection: Collection::Employees,
            }),
        },
{
    let ghost raw = raw_entries(listing@);
    let mut in_place = true;
    let mut i: usize = 0;
    while i < listing.len()
        invariant
            i <= listing.len(),
            raw == raw_entries(listing@),
            lists_in_key_order(raw, entries),
            forall|j: int| 0 <= j < i ==> decoded_employee((#[trigger] raw[j]).1) is Some,
            in_place <==> forall|j: int|
                0 <= j < i ==> decoded_employee((#[trigger] raw[j]).1).unwrap().id == raw[j].0
                    && raw[j].0 < next_id,
        decreases listing.len() - i,
    {
        assert(raw[i as int] == (listing@[i as int].0, listing@[i as int].1@));
        assert(entries.contains_pair(raw[i as int].0, raw[i as int].1));
        match Employee::from_bytes(listing[i].1.as_slice()) {
            Ok(employee) => {
                if employee.id != listing[i].0 || employee.id >= next_id {
                    in_place = false;
                }
            },
            Err(error) => {
                assert(entries.contains_key(raw[i as int].0));
                return Err(error);
            },
        }
        i += 1;
    }
    proof {
        assert forall|id: u64| #[trigger] entries.contains_key(id) implies decoded_employee(
            entries[id],
        ) is Some by {
            let j = choose|j: int| 0 <= j < raw.len() && (#[trigger] raw[j]).0 == id;
            assert(entries.contains_pair(raw[j].0, raw[j].1));
        }
        if in_place {
            assert forall|id: u64| #[trigger] entries.contains_key(id) implies decoded_employee(
                entries[id],
            ).unwrap().id == id && id < next_id by {
                let j = choose|j: int| 0 <= j < raw.len() && (#[trigger] raw[j]).0 == id;
                assert(entries.contains_pair(raw[j].0, raw[j].1));
            }
        } else {
            let j = choose|j: int|
                0 <= j < raw.len() && !(decoded_employee((#[trigger] raw[j]).1).unwrap().id
                    == raw[j].0 && raw[j].0 < next_id);
            assert(entries.contains_pair(raw[j].0, raw[j].1));
            assert(entries.contains_key(raw[j].0));
        }
    }
    Ok(in_place)
}

/// Decodes every entry of a listing of `entries` as a leave request, and
/// says whether each stands under its own identifier below `next_id`.
fn check_leave_requests(
    listing: &Vec<(u64, Vec<u8>)>,
    next_id: u64,
    Ghost(entries): Ghost<Map<u64, Seq<u8>>>,
) -> (checked: Result<bool, Error>)
    requires
        lists_in_key_order(raw_entries(listing@), entries),
    ensures
        match checked {
            Ok(in_place) => leave_requests_decode(entries) && in_place == leave_requests_in_place(
                next_id,
                entries,
            ),
            Err(error) => !leave_requests_decode(entries) && error == (
            Error::DeserializationError { collection: Collection::LeaveRequests }),
        },
{
    let ghost raw = raw_entries(listing@);
    let mut in_place = true;
    let mut i: usize = 0;
    while i < listing.len()
        invariant
            i <= listing.len(),
            raw == raw_entries(listing@),
            lists_in_key_order(raw, entries),
            forall|j: int| 0 <= j < i ==> decoded_leave_request((#[trigger] raw[j]).1) is Some,
            in_place <==> forall|j: int|
                0 <= j < i ==> decoded_leave_request((#[trigger] raw[j]).1).unwrap().id
                    == raw[j].0 && raw[j].0 < next_id,
        decreases listing.len() - i,
    {
        assert(raw[i as int] == (listing@[i as int].0, listing@[i as int].1@));
        assert(entries.contains_pair(raw[i as int].0, raw[i as int].1));
        match LeaveRequest::from_bytes(listing[i].1.as_slice()) {
            Ok(request) => {
                if request.id != listing[i].0 || request.id >= next_id {
                    in_place = false;
                }
            },
            Err(error) => {
                assert(entries.contains_key(raw[i as int].0));
                return Err(error);
            },
        }
        i += 1;
    }
    proof {
        assert forall|id: u64| #[trigger]
            entries.contains_key(id) implies decoded_leave_request(entries[id]) is Some by {
            let j = choose|j: int| 0 <= j < raw.len() && (#[trigger] raw[j]).0 == id;
            assert(entries.contains_pair(raw[j].0, raw[j].1));
        }
        if in_place {
            assert forall|id: u64| #[trigger]
                entries.contains_key(id) implies decoded_leave_request(entries[id]).unwrap().id
                == id && id < next_id by {
                let j = choose|j: int| 0 <= j < raw.len() && (#[trigger] raw[j]).0 == id;
                assert(entries.contains_pair(raw[j].0, raw[j].1));
            }
        } else {
            let j = choose|j: int|
                0 <= j < raw.len() && !(decoded_leave_request((#[trigger] raw[j]).1).unwrap().id
                    == raw[j].0 && raw[j].0 < next_id);
            assert(entries.contains_pair(raw[j].0, raw[j].1));
            assert(entries.contains_key(raw[j].0));
        }
    }
    Ok(in_place)
}

/// The counter and the records, each collection in a stable ordered map.
pub struct LeaveRegistry {
    counter: IdCell,
    leave_requests: RecordMap,
    employees: RecordMap,
}

impl View for LeaveRegistry {
    type V = RegistryView;

    closed spec fn view(&self) -> RegistryView {
        assembled(
            cell_value(self.counter),
            map_entries(self.leave_requests),
            map_entries(self.employees),
        )
    }
}

impl LeaveRegistry {
    /// What holds of a registry between operations: every stored entry is
    /// the encoding of a record, and the records are well formed.
    pub closed spec fn inv(&self) -> bool {
        &&& employees_decode(map_entries(self.employees))
        &&& leave_requests_decode(map_entries(self.leave_requests))
        &&& self@.well_formed()
    }

    /// The records of a registry are well formed.
    pub proof fn lemma_well_formed(&self)
        requires
            self.inv(),
        ensures
            self@.well_formed(),
    {
    }

    /// Makes a registry of a counter and two maps that were opened elsewhere.
    /// They are taken only if every stored entry is the encoding of a record,
    /// every record stands under its own identifier, and the counter has
    /// passed every identifier in use.
    pub fn from_parts(counter: IdCell, leave_requests: RecordMap, employees: RecordMap) -> (made:
        Result<LeaveRegistry, Error>)
        ensures
            ({
                let fault = fault_of_parts(
                    cell_value(counter),
                    map_entries(leave_requests),
                    map_entries(employees),
                );
                match made {
                    Ok(registry) => {
                        &&& fault is None
                        &&& registry.inv()
                        &&& registry@ == assembled(
                            cell_value(counter),
                            map_entries(leave_requests),
                            map_entries(employees),
                        )
                    },
                    Err(error) => fault == Some(error),
                }
            }),
    {
        let next_id = cell_get(&counter);
        let staff = map_iter(&employees);
        let staff_in_place = match check_employees(
            &staff,
            next_id,
            Ghost(map_entries(employees)),
        ) {
            Ok(in_place) => in_place,
            Err(error) => {
                return Err(error);
            },
        };
        let requests = map_iter(&leave_requests);
        let requests_in_place = match check_leave_requests(
            &requests,
            next_id,
            Ghost(map_entries(leave_requests)),
        ) {
            Ok(in_place) => in_place,
            Err(error) => {
                return Err(error);
            },
        };
        proof {
            let view = assembled(
                cell_value(counter),
                map_entries(leave_requests),
                map_entries(employees),
            );
            if staff_in_place && requests_in_place {
                assert(view.well_formed());
            } else if !staff_in_place {
                let id = choose|id: u64| #[trigger]
                    map_entries(employees).contains_key(id) && !(decoded_employee(
                        map_entries(employees)[id],
                    ).unwrap().id == id && id < next_id);
                assert(view.employees.contains_key(id));
            } else {
                let id = choose|id: u64| #[trigger]
                    map_entries(leave_requests).contains_key(id) && !(decoded_leave_request(
                        map_entries(leave_requests)[id],
                    ).unwrap().id == id && id < next_id);
                assert(view.leave_requests.contains_key(id));
            }
        }
        if !staff_in_place || !requests_in_place {
            return Err(Error::InvalidInput);
        }
        Ok(LeaveRegistry { counter, leave_requests, employees })
    }

    /// The identifier that the next new record gets. The counter stays.
    pub fn peek_next_id(&self) -> (id: u64)
        ensures
            id == self@.next_id,
    {
        cell_get(&self.counter)
    }

    /// Takes the next identifier: returns what the counter holds and moves
    /// the counter on by one. Both kinds of record draw on this one counter,
    /// so no identifier is handed out twice.
    pub fn next_id(&mut self) -> (id: u64)
        requires
            old(self).inv(),
            old(self)@.next_id < u64::MAX,
        ensures
            final(self).inv(),
            id == old(self)@.next_id,
            final(self)@ == old(self)@.with_id_taken(),
    {
        let id = cell_get(&self.counter);
        cell_set(&mut self.counter, id + 1);
        proof {
            assert(self@.employees == old(self)@.employees);
            assert(self@.leave_requests == old(self)@.leave_requests);
        }
        id
    }

    /// The employee under `employee_id`, if there is one.
    pub fn _get_employee(&self, employee_id: &u64) -> (found: Option<Employee>)
        requires
            self.inv(),
        ensures
            match found {
                Some(employee) => self@.employees.contains_pair(*employee_id, employee@),
                None => !self@.employees.contains_key(*employee_id),
            },
    {
        match map_get(&self.employees, *employee_id) {
            Some(bytes) => match Employee::from_bytes(bytes.as_slice()) {
                Ok(employee) => Some(employee),
                Err(_) => None,
            },
            None => None,
        }
    }

    /// The leave request under `request_id`, if there is one.
    pub fn _get_leave_request(&self, request_id: &u64) -> (found: Option<LeaveRequest>)
        requires
            self.inv(),
        ensures
            match found {
                Some(request) => self@.leave_requests.contains_pair(*request_id, request@),
                None => !self@.leave_requests.contains_key(*request_id),
            },
    {
        match map_get(&self.leave_requests, *request_id) {
            Some(bytes) => match LeaveRequest::from_bytes(bytes.as_slice()) {
                Ok(request) => Some(request),
                Err(_) => None,
            },
            None => None,
        }
    }

    /// The employee under `employee_id`, or `NotFound`.
    pub fn get_employee(&self, employee_id: u64) -> (found: Result<Employee, Error>)
        requires
            self.inv(),
        ensures
            match found {
                Ok(employee) => self@.find_employee(employee_id) == Ok::<EmployeeView, Error>(
                    employee@,
                ),
                Err(error) => self@.find_employee(employee_id) == Err::<EmployeeView, Error>(
                    error,
                ),
            },
    {
        match self._get_employee(&employee_id) {
            Some(employee) => Ok(employee),
            None => Err(Error::NotFound { collection: Collection::Employees, id: employee_id }),
        }
    }

    /// The leave request under `request_id`, or `NotFound`.
    pub fn get_leave_request(&self, request_id: u64) -> (found: Result<LeaveRequest, Error>)
        requires
            self.inv(),
        ensures
            match found {
                Ok(request) => self@.find_leave_request(request_id) == Ok::<
                    LeaveRequestView,
                    Error,
                >(request@),
                Err(error) => self@.find_leave_request(request_id) == Err::<
                    LeaveRequestView,
                    Error,
                >(error),
            },
    {
        match self._get_leave_request(&request_id) {
            Some(request) => Ok(request),
            None => Err(Error::NotFound { collection: Collection::LeaveRequests, id: request_id }),
        }
    }

    /// The leave balance of the employee under `employee_id`: the days that
    /// its record holds, as they are.
    pub fn calculate_leave_balance(&self, employee_id: u64) -> (balance: Result<u32, Error>)
        requires
            self.inv(),
        ensures
            balance == self@.leave_balance(employee_id),
    {
        match self._get_employee(&employee_id) {
            Some(employee) => Ok(employee.remaining_leave_days),
            None => Err(Error::NotFound { collection: Collection::Employees, id: employee_id }),
        }
    }

    /// Stores a new employee under the next identifier and returns it. An
    /// employee that does not fit in a stored value is refused, and nothing
    /// changes.
    pub fn register_employee(
        &mut self,
        name: String,
        department: String,
        position: String,
        remaining_leave_days: u32,
    ) -> (registered: Result<Employee, Error>)
        requires
            old(self).inv(),
            old(self)@.next_id < u64::MAX,
        ensures
            final(self).inv(),
            ({
                let created = old(self)@.new_employee(
                    name@,
                    department@,
                    position@,
                    remaining_leave_days,
                );
                match registered {
                    Ok(employee) => {
                        &&& employee@ == created
                        &&& employee_fits(created)
                        &&& final(self)@ == old(self)@.with_id_taken().with_employee(created)
                    },
                    Err(error) => {
                        &&& !employee_fits(created)
                        &&& error == (Error::SerializationError {
                            collection: Collection::Employees,
                        })
                        &&& final(self)@ == old(self)@
                    },
                }
            }),
    {
        let employee = Employee {
            id: self.peek_next_id(),
            name,
            department,
            position,
            remaining_leave_days,
        };
        let bytes = match employee.to_bytes() {
            Ok(bytes) => bytes,
            Err(error) => {
                return Err(error);
            },
        };
        proof {
            lemma_employee_round_trip(employee@);
        }
        let id = self.next_id();
        map_insert(&mut self.employees, id, &bytes);
        proof {
            assert(self@.employees =~= old(self)@.with_id_taken().with_employee(
                employee@,
            ).employees);
            assert(self@.leave_requests =~= old(self)@.leave_requests);
        }
        Ok(employee)
    }

    /// Stores a new leave request under the next identifier, as pending, and
    /// returns it. Whether `employee_id` names an employee is not looked at.
    /// A request that does not fit in a stored value is refused, and nothing
    /// changes.
    pub fn submit_leave_request(
        &mut self,
        employee_id: u64,
        start_date: u64,
        end_date: u64,
        reason: String,
    ) -> (submitted: Result<LeaveRequest, Error>)
        requires
            old(self).inv(),
            old(self)@.next_id < u64::MAX,
        ensures
            final(self).inv(),
            ({
                let created = old(self)@.new_leave_request(
                    employee_id,
                    start_date,
                    end_date,
                    reason@,
                );
                match submitted {
                    Ok(request) => {
                        &&& request@ == created
                        &&& leave_request_fits(created)
                        &&& final(self)@ == old(self)@.with_id_taken().with_leave_request(created)
                    },
                    Err(error) => {
                        &&& !leave_request_fits(created)
                        &&& error == (Error::SerializationError {
                            collection: Collection::LeaveRequests,
                        })
                        &&& final(self)@ == old(self)@
                    },
                }
            }),
    {
        let request = LeaveRequest {
            id: self.peek_next_id(),
            employee_id,
            start_date,
            end_date,
            reason,
            status: LeaveStatus::Pending,
        };
        let bytes = match request.to_bytes() {
            Ok(bytes) => bytes,
            Err(error) => {
                return Err(error);
            },
        };
        proof {
            lemma_leave_request_round_trip(request@);
        }
        let id = self.next_id();
        map_insert(&mut self.leave_requests, id, &bytes);
        proof {
            assert(self@.leave_requests =~= old(self)@.with_id_taken().with_leave_request(
                request@,
            ).leave_requests);
            assert(self@.employees =~= old(self)@.employees);
        }
        Ok(request)
    }

    /// Replaces every field but the identifier of the employee under
    /// `employee_id` and returns the new record. An employee that would no
    /// longer fit in a stored value is refused, and nothing changes.
    pub fn update_employee(
        &mut self,
        employee_id: u64,
        name: String,
        department: String,
        position: String,
        remaining_leave_days: u32,
    ) -> (updated: Result<Employee, Error>)
        requires
            old(self).inv(),
        ensures
            final(self).inv(),
            match old(self)@.find_employee(employee_id) {
                Ok(before) => {
                    let after = updated_employee(
                        before,
                        name@,
                        department@,
                        position@,
                        remaining_leave_days,
                    );
                    match updated {
                        Ok(employee) => {
                            &&& employee@ == after
                            &&& employee_fits(after)
                            &&& final(self)@ == old(self)@.with_employee(after)
                        },
                        Err(error) => {
                            &&& !employee_fits(after)
                            &&& error == (Error::SerializationError {
                                collection: Collection::Employees,
                            })
                            &&& final(self)@ == old(self)@
                        },
                    }
                },
                Err(missing) => updated == Err::<Employee, Error>(missing) && final(self)@ == old(
                    self,
                )@,
            },
    {
        let mut employee = match self._get_employee(&employee_id) {
            Some(employee) => employee,
            None => {
                return Err(
                    Error::NotFound { collection: Collection::Employees, id: employee_id },
                );
            },
        };
        employee.name = name;
        employee.department = department;
        employee.position = position;
        employee.remaining_leave_days = remaining_leave_days;
        let bytes = match employee.to_bytes() {
            Ok(bytes) => bytes,
            Err(error) => {
                return Err(error);
            },
        };
        proof {
            lemma_employee_round_trip(employee@);
        }
        map_insert(&mut self.employees, employee_id, &bytes);
        proof {
            assert(self@.employees =~= old(self)@.with_employee(employee@).employees);
            assert(self@.leave_requests =~= old(self)@.leave_requests);
        }
        Ok(employee)
    }

    /// Replaces the dates and the reason of the leave request under
    /// `request_id` and returns the new record. A request that would no
    /// longer fit in a stored value is refused, and nothing changes.
    pub fn update_leave_request(
        &mut self,
        request_id: u64,
        start_date: u64,
        end_date: u64,
        reason: String,
    ) -> (updated: Result<LeaveRequest, Error>)
        requires
            old(self).inv(),
        ensures
            final(self).inv(),
            match old(self)@.find_leave_request(request_id) {
                Ok(before) => {
                    let after = updated_leave_request(before, start_date, end_date, reason@);
                    match updated {
                        Ok(request) => {
                            &&& request@ == after
                            &&& leave_request_fits(after)
                            &&& final(self)@ == old(self)@.with_leave_request(after)
                        },
                        Err(error) => {
                            &&& !leave_request_fits(after)
                            &&& error == (Error::SerializationError {
                                collection: Collection::LeaveRequests,
                            })
                            &&& final(self)@ == old(self)@
                        },
                    }
                },
                Err(missing) => updated == Err::<LeaveRequest, Error>(missing) && final(self)@
                    == old(self)@,
            },
    {
        let mut request = match self._get_leave_request(&request_id) {
            Some(request) => request,
            None => {
                return Err(
                    Error::NotFound { collection: Collection::LeaveRequests, id: request_id },
                );
            },
        };
        request.start_date = start_date;
        request.end_date = end_date;
        request.reason = reason;
        let bytes = match request.to_bytes() {
            Ok(bytes) => bytes,
            Err(error) => {
                return Err(error);
            },
        };
        proof {
            lemma_leave_request_round_trip(request@);
        }
        map_insert(&mut self.leave_requests, request_id, &bytes);
        proof {
            assert(self@.leave_requests =~= old(self)@.with_leave_request(
                request@,
            ).leave_requests);
            assert(self@.employees =~= old(self)@.employees);
        }
        Ok(request)
    }

    /// Gives the leave request under `request_id` the status `status`,
    /// whatever its status was.
    fn set_status(&mut self, request_id: u64, status: LeaveStatus) -> (done: Result<(), Error>)
        requires
            old(self).inv(),
        ensures
            final(self).inv(),
            match old(self)@.find_leave_request(request_id) {
                Ok(before) => done is Ok && final(self)@ == old(self)@.with_leave_request(
                    with_status(before, status),
                ),
                Err(missing) => done == Err::<(), Error>(missing) && final(self)@ == old(self)@,
            },
    {
        let mut request = match self._get_leave_request(&request_id) {
            Some(request) => request,
            None => {
                return Err(
                    Error::NotFound { collection: Collection::LeaveRequests, id: request_id },
                );
            },
        };
        proof {
            lemma_leave_request_shape(request@);
            lemma_leave_request_shape(with_status(request@, status));
        }
        request.status = status;
        let bytes = match request.to_bytes() {
            Ok(bytes) => bytes,
            Err(error) => {
                return Err(error);
            },
        };
        proof {
            lemma_leave_request_round_trip(request@);
        }
        map_insert(&mut self.leave_requests, request_id, &bytes);
        proof {
            assert(self@.leave_requests =~= old(self)@.with_leave_request(
                request@,
            ).leave_requests);
            assert(self@.employees =~= old(self)@.employees);
        }
        Ok(())
    }

    /// Marks the leave request under `request_id` as approved, whatever its
    /// status was.
    pub fn approve_leave_request(&mut self, request_id: u64) -> (done: Result<(), Error>)
        requires
            old(self).inv(),
        ensures
            final(self).inv(),
            match old(self)@.find_leave_request(request_id) {
                Ok(before) => done is Ok && final(self)@ == old(self)@.with_leave_request(
                    with_status(before, LeaveStatus::Approved),
                ),
                Err(missing) => done == Err::<(), Error>(missing) && final(self)@ == old(self)@,
            },
    {
        self.set_status(request_id, LeaveStatus::Approved)
    }

    /// Marks the leave request under `request_id` as rejected, whatever its
    /// status was.
    pub fn reject_leave_request(&mut self, request_id: u64) -> (done: Result<(), Error>)
        requires
            old(self).inv(),
        ensures
            final(self).inv(),
            match old(self)@.find_leave_request(request_id) {
                Ok(before) => done is Ok && final(self)@ == old(self)@.with_leave_request(
                    with_status(before, LeaveStatus::Rejected),
                ),
                Err(missing) => done == Err::<(), Error>(missing) && final(self)@ == old(self)@,
            },
    {
        self.set_status(request_id, LeaveStatus::Rejected)
    }

    /// Removes the employee under `employee_id`. Leave requests that name it
    /// stay.
    pub fn delete_employee(&mut self, employee_id: u64) -> (done: Result<(), Error>)
        requires
            old(self).inv(),
        ensures
            final(self).inv(),
            match old(self)@.find_employee(employee_id) {
                Ok(_) => done is Ok && final(self)@ == old(self)@.without_employee(employee_id),
                Err(missing) => done == Err::<(), Error>(missing) && final(self)@ == old(self)@,
            },
    {
        if map_remove(&mut self.employees, employee_id) {
            proof {
                assert(self@.employees =~= old(self)@.without_employee(employee_id).employees);
                assert(self@.leave_requests =~= old(self)@.leave_requests);
            }
            Ok(())
        } else {
            proof {
                assert(map_entries(self.employees) =~= map_entries(old(self).employees));
            }
            Err(Error::NotFound { collection: Collection::Employees, id: employee_id })
        }
    }

    /// Removes the leave request under `request_id`.
    pub fn delete_leave_request(&mut self, request_id: u64) -> (done: Result<(), Error>)
        requires
            old(self).inv(),
        ensures
            final(self).inv(),
            match old(self)@.find_leave_request(request_id) {
                Ok(_) => done is Ok && final(self)@ == old(self)@.without_leave_request(
                    request_id,
                ),
                Err(missing) => done == Err::<(), Error>(missing) && final(self)@ == old(self)@,
            },
    {
        if map_remove(&mut self.leave_requests, request_id) {
            proof {
                assert(self@.leave_requests =~= old(self)@.without_leave_request(
                    request_id,
                ).leave_requests);
                assert(self@.employees =~= old(self)@.employees);
            }
            Ok(())
        } else {
            proof {
                assert(map_entries(self.leave_requests) =~= map_entries(
                    old(self).leave_requests,
                ));
            }
            Err(Error::NotFound { collection: Collection::LeaveRequests, id: request_id })
        }
    }

    /// Every employee, by ascending identifier.
    pub fn list_employees(&self) -> (listed: Vec<Employee>)
        requires
            self.inv(),
        ensures
            employee_views(listed@) == self@.all_employees(),
    {
        let raw = map_iter(&self.employees);
        let ghost entries = map_entries(self.employees);
        let ghost decoded = raw_entries(raw@).map_values(
            |entry: (u64, Seq<u8>)| (entry.0, decoded_employee(entry.1).unwrap()),
        );
        proof {
            assert forall|key: u64| #[trigger] self@.employees.contains_key(key) implies exists|
                i: int,
            |
                0 <= i < decoded.len() && (#[trigger] decoded[i]).0 == key by {
                assert(entries.contains_key(key));
                let i = choose|i: int|
                    0 <= i < raw_entries(raw@).len() && (#[trigger] raw_entries(raw@)[i]).0
                        == key;
                assert(decoded[i].0 == key);
            }
            assert forall|i: int| 0 <= i < decoded.len() implies self@.employees.contains_pair(
                (#[trigger] decoded[i]).0,
                decoded[i].1,
            ) by {
                assert(entries.contains_pair(raw_entries(raw@)[i].0, raw_entries(raw@)[i].1));
            }
            assert forall|i: int, j: int| 0 <= i < j < decoded.len() implies (
            #[trigger] decoded[i]).0 < (#[trigger] decoded[j]).0 by {
                assert(raw_entries(raw@)[i].0 < raw_entries(raw@)[j].0);
            }
            lemma_listing_is_entries_in_key_order(decoded, self@.employees);
        }
        let mut listed: Vec<Employee> = Vec::new();
        let mut i: usize = 0;
        while i < raw.len()
            invariant
                i <= raw.len(),
                listed@.len() == i,
                employees_decode(entries),
                lists_in_key_order(raw_entries(raw@), entries),
                decoded == raw_entries(raw@).map_values(
                    |entry: (u64, Seq<u8>)| (entry.0, decoded_employee(entry.1).unwrap()),
                ),
                forall|j: int| 0 <= j < i ==> (#[trigger] listed@[j])@ == decoded[j].1,
            decreases raw.len() - i,
        {
            proof {
                assert(raw_entries(raw@)[i as int] == (raw@[i as int].0, raw@[i as int].1@));
                assert(entries.contains_pair(
                    raw_entries(raw@)[i as int].0,
                    raw_entries(raw@)[i as int].1,
                ));
                assert(entries.contains_key(raw_entries(raw@)[i as int].0));
            }
            match Employee::from_bytes(raw[i].1.as_slice()) {
                Ok(employee) => {
                    listed.push(employee);
                },
                Err(_) => {},
            }
            i += 1;
        }
        proof {
            assert(employee_views(listed@) =~= self@.all_employees());
        }
        listed
    }

    /// Every leave request, by ascending identifier.
    pub fn list_leave_requests(&self) -> (listed: Vec<LeaveRequest>)
        requires
            self.inv(),
        ensures
            leave_request_views(listed@) == self@.all_leave_requests(),
    {
        let raw = map_iter(&self.leave_requests);
        let ghost entries = map_entries(self.leave_requests);
        let ghost decoded = raw_entries(raw@).map_values(
            |entry: (u64, Seq<u8>)| (entry.0, decoded_leave_request(entry.1).unwrap()),
        );
        proof {
            assert forall|key: u64| #[trigger]
                self@.leave_requests.contains_key(key) implies exists|i: int|
                0 <= i < decoded.len() && (#[trigger] decoded[i]).0 == key by {
                assert(entries.contains_key(key));
                let i = choose|i: int|
                    0 <= i < raw_entries(raw@).len() && (#[trigger] raw_entries(raw@)[i]).0
                        == key;
                assert(decoded[i].0 == key);
            }
            assert forall|i: int|
                0 <= i < decoded.len() implies self@.leave_requests.contains_pair(
                (#[trigger] decoded[i]).0,
                decoded[i].1,
            ) by {
                assert(entries.contains_pair(raw_entries(raw@)[i].0, raw_entries(raw@)[i].1));
            }
            assert forall|i: int, j: int| 0 <= i < j < decoded.len() implies (
            #[trigger] decoded[i]).0 < (#[trigger] decoded[j]).0 by {
                assert(raw_entries(raw@)[i].0 < raw_entries(raw@)[j].0);
            }
            lemma_listing_is_entries_in_key_order(decoded, self@.leave_requests);
        }
        let mut listed: Vec<LeaveRequest> = Vec::new();
        let mut i: usize = 0;
        while i < raw.len()
            invariant
                i <= raw.len(),
                listed@.len() == i,
                leave_requests_decode(entries),
                lists_in_key_order(raw_entries(raw@), entries),
                decoded == raw_entries(raw@).map_values(
                    |entry: (u64, Seq<u8>)| (entry.0, decoded_leave_request(entry.1).unwrap()),
                ),
                forall|j: int| 0 <= j < i ==> (#[trigger] listed@[j])@ == decoded[j].1,
            decreases raw.len() - i,
        {
            proof {
                assert(raw_entries(raw@)[i as int] == (raw@[i as int].0, raw@[i as int].1@));
                assert(entries.contains_pair(
                    raw_entries(raw@)[i as int].0,
                    raw_entries(raw@)[i as int].1,
                ));
                assert(entries.contains_key(raw_entries(raw@)[i as int].0));
            }
            match LeaveRequest::from_bytes(raw[i].1.as_slice()) {
                Ok(request) => {
                    listed.push(request);
                },
                Err(_) => {},
            }
            i += 1;
        }
        proof {
            assert(leave_request_views(listed@) =~= self@.all_leave_requests());
        }
        listed
    }

    /// The leave requests of the employee `employee_id`, by ascending
    /// identifier: none where it has none, whether or not there is such an
    /// employee.
    pub fn get_leave_requests_by_employee_id(&self, employee_id: u64) -> (listed: Vec<
        LeaveRequest,
    >)
        requires
            self.inv(),
        ensures
            leave_request_views(listed@) == self@.leave_requests_of(employee_id),
    {
        let all = self.list_leave_requests();
        let ghost wanted = |request: LeaveRequestView| request.employee_id == employee_id;
        let mut listed: Vec<LeaveRequest> = Vec::new();
        let mut i: usize = 0;
        while i < all.len()
            invariant
                i <= all.len(),
                wanted == |request: LeaveRequestView| request.employee_id == employee_id,
                leave_request_views(listed@) == leave_request_views(all@).take(i as int).filter(
                    wanted,
                ),
            decreases all.len() - i,
        {
            proof {
                let seen = leave_request_views(all@).take(i as int);
                assert(leave_request_views(all@).take(i + 1) =~= seen.push(all@[i as int]@));
                seen.lemma_filter_push(all@[i as int]@, wanted);
            }
            if all[i].employee_id == employee_id {
                listed.push(all[i].clone());
            }
            i += 1;
        }
        proof {
            assert(leave_request_views(all@).take(all@.len() as int) =~= leave_request_views(
                all@,
            ));
        }
        listed
    }

    /// The leave requests that are pending, by ascending identifier.
    pub fn get_pending_leave_requests(&self) -> (listed: Vec<LeaveRequest>)
        requires
            self.inv(),
        ensures
            leave_request_views(listed@) == self@.pending_leave_requests(),
    {
        let all = self.list_leave_requests();
        let ghost wanted = |request: LeaveRequestView| request.status == LeaveStatus::Pending;
        let mut listed: Vec<LeaveRequest> = Vec::new();
        let mut i: usize = 0;
        while i < all.len()
            invariant
                i <= all.len(),
                wanted == |request: LeaveRequestView| request.status == LeaveStatus::Pending,
                leave_request_views(listed@) == leave_request_views(all@).take(i as int).filter(
                    wanted,
                ),
            decreases all.len() - i,
        {
            proof {
                let seen = leave_request_views(all@).take(i as int);
                assert(leave_request_views(all@).take(i + 1) =~= seen.push(all@[i as int]@));
                seen.lemma_filter_push(all@[i as int]@, wanted);
            }
            if all[i].status == LeaveStatus::Pending {
                listed.push(all[i].clone());
            }
            i += 1;
        }
        proof {
            assert(leave_request_views(all@).take(all@.len() as int) =~= leave_request_views(
                all@,
            ));
        }
        listed
    }
}

} // verus!
