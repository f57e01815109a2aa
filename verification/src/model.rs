//! The registry as contracts see it: a counter and two maps of records, and
//! what each operation makes of them.

use crate::codec::{employee_fits, leave_request_fits};
use crate::error::{Collection, Error};
use crate::records::{EmployeeView, LeaveRequestView, LeaveStatus};
use crate::storage::lists_in_key_order;
use vstd::prelude::*;

verus! {

/// A map has at most one listing in key order.
pub proof fn lemma_listing_unique<V>(a: Seq<(u64, V)>, b: Seq<(u64, V)>, entries: Map<u64, V>)
    requires
        lists_in_key_order(a, entries),
        lists_in_key_order(b, entries),
    ensures
        a == b,
    decreases a.len(),
{
    if a.len() == 0 {
        if b.len() > 0 {
            assert(entries.contains_key(b[0].0));
        }
        assert(a =~= b);
    } else {
        assert(entries.contains_key(a[0].0));
        let at_b = choose|i: int| 0 <= i < b.len() && (#[trigger] b[i]).0 == a[0].0;
        assert(entries.contains_key(b[0].0));
        let at_a = choose|i: int| 0 <= i < a.len() && (#[trigger] a[i]).0 == b[0].0;
        assert(a[0].0 <= a[at_a].0);
        assert(b[0].0 <= b[at_b].0);
        assert(a[0] == b[0]);
        let key = a[0].0;
        let rest = entries.remove(key);
        let a_rest = a.drop_first();
        let b_rest = b.drop_first();
        assert forall|k: u64| #[trigger] rest.contains_key(k) implies exists|i: int|
            0 <= i < a_rest.len() && (#[trigger] a_rest[i]).0 == k by {
            assert(entries.contains_key(k));
            let i = choose|i: int| 0 <= i < a.len() && (#[trigger] a[i]).0 == k;
            assert(a_rest[i - 1] == a[i]);
        }
        assert forall|k: u64| #[trigger] rest.contains_key(k) implies exists|i: int|
            0 <= i < b_rest.len() && (#[trigger] b_rest[i]).0 == k by {
            assert(entries.contains_key(k));
            let i = choose|i: int| 0 <= i < b.len() && (#[trigger] b[i]).0 == k;
            assert(b_rest[i - 1] == b[i]);
        }
        assert forall|i: int| 0 <= i < a_rest.len() implies rest.contains_pair(
            (#[trigger] a_rest[i]).0,
            a_rest[i].1,
        ) by {
            assert(a_rest[i] == a[i + 1]);
            assert(a[0].0 < a[i + 1].0);
        }
        assert forall|i: int| 0 <= i < b_rest.len() implies rest.contains_pair(
            (#[trigger] b_rest[i]).0,
            b_rest[i].1,
        ) by {
            assert(b_rest[i] == b[i + 1]);
            assert(b[0].0 < b[i + 1].0);
        }
        assert forall|i: int, j: int| 0 <= i < j < a_rest.len() implies (#[trigger] a_rest[i]).0 < (
        #[trigger] a_rest[j]).0 by {
            assert(a_rest[i] == a[i + 1]);
            assert(a_rest[j] == a[j + 1]);
        }
        assert forall|i: int, j: int| 0 <= i < j < b_rest.len() implies (#[trigger] b_rest[i]).0 < (
        #[trigger] b_rest[j]).0 by {
            assert(b_rest[i] == b[i + 1]);
            assert(b_rest[j] == b[j + 1]);
        }
        lemma_listing_unique(a_rest, b_rest, rest);
        assert(a =~= seq![a[0]] + a_rest);
        assert(b =~= seq![b[0]] + b_rest);
    }
}

/// The entries of `entries` by ascending key, where it has a listing.
pub open spec fn entries_in_key_order<V>(entries: Map<u64, V>) -> Seq<(u64, V)> {
    choose|listing: Seq<(u64, V)>| lists_in_key_order(listing, entries)
}

/// The values of `entries` by ascending key.
pub open spec fn values_in_key_order<V>(entries: Map<u64, V>) -> Seq<V> {
    entries_in_key_order(entries).map_values(|entry: (u64, V)| entry.1)
}

/// The entries of `entries` whose key lies below `bound`, by ascending key.
spec fn entries_below<V>(entries: Map<u64, V>, bound: nat) -> Seq<(u64, V)>
    decreases bound,
{
    if bound == 0 {
        Seq::empty()
    } else {
        let rest = entries_below(entries, (bound - 1) as nat);
        let key = (bound - 1) as u64;
        if entries.contains_key(key) {
            rest.push((key, entries[key]))
        } else {
            rest
        }
    }
}

/// `entries_below` lists in key order the entries whose key lies below `bound`.
proof fn lemma_entries_below<V>(entries: Map<u64, V>, bound: nat)
    requires
        bound <= u64::MAX + 1,
    ensures
        ({
            let listing = entries_below(entries, bound);
            &&& forall|i: int, j: int|
                0 <= i < j < listing.len() ==> (#[trigger] listing[i]).0 < (
                #[trigger] listing[j]).0
            &&& forall|i: int|
                0 <= i < listing.len() ==> (#[trigger] listing[i]).0 < bound
                    && entries.contains_pair(listing[i].0, listing[i].1)
            &&& forall|key: u64| #[trigger]
                entries.contains_key(key) && key < bound ==> exists|i: int|
                    0 <= i < listing.len() && (#[trigger] listing[i]).0 == key
        }),
    decreases bound,
{
    if bound > 0 {
        let rest = entries_below(entries, (bound - 1) as nat);
        let last = (bound - 1) as u64;
        let listing = entries_below(entries, bound);
        lemma_entries_below(entries, (bound - 1) as nat);
        assert forall|key: u64| #[trigger] entries.contains_key(key) && key < bound implies exists|
            i: int,
        |
            0 <= i < listing.len() && (#[trigger] listing[i]).0 == key by {
            if key == last {
                assert(listing[listing.len() - 1].0 == key);
            } else {
                let i = choose|i: int| 0 <= i < rest.len() && (#[trigger] rest[i]).0 == key;
                assert(listing[i].0 == key);
            }
        }
    }
}

/// Every map has a listing in key order: `entries_in_key_order` is one.
pub proof fn lemma_listing_exists<V>(entries: Map<u64, V>)
    ensures
        lists_in_key_order(entries_in_key_order(entries), entries),
{
    lemma_entries_below(entries, (u64::MAX + 1) as nat);
    assert(lists_in_key_order(entries_below(entries, (u64::MAX + 1) as nat), entries));
}

/// A listing of a map in key order is the listing of that map.
pub proof fn lemma_listing_is_entries_in_key_order<V>(listing: Seq<(u64, V)>, entries: Map<u64, V>)
    requires
        lists_in_key_order(listing, entries),
    ensures
        entries_in_key_order(entries) == listing,
{
    lemma_listing_unique(entries_in_key_order(entries), listing, entries);
}

/// The registry in contracts: the identifier that the next new record gets,
/// and the records of each collection under their identifiers.
pub struct RegistryView {
    pub next_id: u64,
    pub employees: Map<u64, EmployeeView>,
    pub leave_requests: Map<u64, LeaveRequestView>,
}

/// `employee` with every field but its identifier replaced.
pub open spec fn updated_employee(
    employee: EmployeeView,
    name: Seq<char>,
    department: Seq<char>,
    position: Seq<char>,
    remaining_leave_days: u32,
) -> EmployeeView {
    EmployeeView { id: employee.id, name, department, position, remaining_leave_days }
}

/// `request` with its dates and reason replaced. Its identifier, employee
/// and status stay.
pub open spec fn updated_leave_request(
    request: LeaveRequestView,
    start_date: u64,
    end_date: u64,
    reason: Seq<char>,
) -> LeaveRequestView {
    LeaveRequestView { start_date, end_date, reason, ..request }
}

/// `request` with its status replaced, whatever that was.
pub open spec fn with_status(request: LeaveRequestView, status: LeaveStatus) -> LeaveRequestView {
    LeaveRequestView { status, ..request }
}

impl RegistryView {
    /// A registry without records, whose first identifier is 0.
    pub open spec fn empty() -> RegistryView {
        RegistryView { next_id: 0, employees: Map::empty(), leave_requests: Map::empty() }
    }

    /// Every record is stored under its own identifier, fits in a stored
    /// value, and has an identifier that the counter has passed.
    pub open spec fn well_formed(self) -> bool {
        &&& forall|id: u64| #[trigger]
            self.employees.contains_key(id) ==> {
                &&& self.employees[id].id == id
                &&& id < self.next_id
                &&& employee_fits(self.employees[id])
            }
        &&& forall|id: u64| #[trigger]
            self.leave_requests.contains_key(id) ==> {
                &&& self.leave_requests[id].id == id
                &&& id < self.next_id
                &&& leave_request_fits(self.leave_requests[id])
            }
    }

    /// The employee under `id`, or that there is none.
    pub open spec fn find_employee(self, id: u64) -> Result<EmployeeView, Error> {
        if self.employees.contains_key(id) {
            Ok(self.employees[id])
        } else {
            Err(Error::NotFound { collection: Collection::Employees, id })
        }
    }

    /// The leave request under `id`, or that there is none.
    pub open spec fn find_leave_request(self, id: u64) -> Result<LeaveRequestView, Error> {
        if self.leave_requests.contains_key(id) {
            Ok(self.leave_requests[id])
        } else {
            Err(Error::NotFound { collection: Collection::LeaveRequests, id })
        }
    }

    /// The leave balance of the employee under `id`: the days on its record.
    pub open spec fn leave_balance(self, id: u64) -> Result<u32, Error> {
        match self.find_employee(id) {
            Ok(employee) => Ok(employee.remaining_leave_days),
            Err(error) => Err(error),
        }
    }

    /// The employee that a registration with these fields creates.
    pub open spec fn new_employee(
        self,
        name: Seq<char>,
        department: Seq<char>,
        position: Seq<char>,
        remaining_leave_days: u32,
    ) -> EmployeeView {
        EmployeeView { id: self.next_id, name, department, position, remaining_leave_days }
    }

    /// The leave request that a submission with these fields creates.
    pub open spec fn new_leave_request(
        self,
        employee_id: u64,
        start_date: u64,
        end_date: u64,
        reason: Seq<char>,
    ) -> LeaveRequestView {
        LeaveRequestView {
            id: self.next_id,
            employee_id,
            start_date,
            end_date,
            reason,
            status: LeaveStatus::Pending,
        }
    }

    /// The registry once the counter has moved past its current identifier.
    pub open spec fn with_id_taken(self) -> RegistryView {
        RegistryView { next_id: (self.next_id + 1) as u64, ..self }
    }

    /// The registry with `employee` stored under its identifier.
    pub open spec fn with_employee(self, employee: EmployeeView) -> RegistryView {
        RegistryView { employees: self.employees.insert(employee.id, employee), ..self }
    }

    /// The registry with `request` stored under its identifier.
    pub open spec fn with_leave_request(self, request: LeaveRequestView) -> RegistryView {
        RegistryView { leave_requests: self.leave_requests.insert(request.id, request), ..self }
    }

    /// The registry with nothing stored under `id` among the employees.
    pub open spec fn without_employee(self, id: u64) -> RegistryView {
        RegistryView { employees: self.employees.remove(id), ..self }
    }

    /// The registry with nothing stored under `id` among the leave requests.
    pub open spec fn without_leave_request(self, id: u64) -> RegistryView {
        RegistryView { leave_requests: self.leave_requests.remove(id), ..self }
    }

    /// Every employee, by ascending identifier.
    pub open spec fn all_employees(self) -> Seq<EmployeeView> {
        values_in_key_order(self.employees)
    }

    /// Every leave request, by ascending identifier.
    pub open spec fn all_leave_requests(self) -> Seq<LeaveRequestView> {
        values_in_key_order(self.leave_requests)
    }

    /// The leave requests of one employee, by ascending identifier.
    pub open spec fn leave_requests_of(self, employee_id: u64) -> Seq<LeaveRequestView> {
        self.all_leave_requests().filter(
            |request: LeaveRequestView| request.employee_id == employee_id,
        )
    }

    /// The leave requests that are pending, by ascending identifier.
    pub open spec fn pending_leave_requests(self) -> Seq<LeaveRequestView> {
        self.all_leave_requests().filter(
            |request: LeaveRequestView| request.status == LeaveStatus::Pending,
        )
    }
}

} // verus!
