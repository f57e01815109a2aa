//! What holds of the operations taken together, stated over the model that
//! their contracts speak of.

use crate::codec::{employee_fits, leave_request_fits, lemma_leave_request_shape};
use crate::error::{Collection, Error};
use crate::model::{
    entries_in_key_order, lemma_listing_exists, updated_employee, updated_leave_request,
    with_status, RegistryView,
};
use crate::records::{EmployeeView, LeaveRequestView, LeaveStatus};
use crate::registry::{assembled, fault_of_parts};
use vstd::prelude::*;

verus! {

/// A counter at 0 and two maps without entries make up the empty registry,
/// and nothing is wrong with them.
pub proof fn law_empty_parts_make_the_empty_registry()
    ensures
        fault_of_parts(0, Map::empty(), Map::empty()) is None,
        assembled(0, Map::empty(), Map::empty()) == RegistryView::empty(),
        RegistryView::empty().well_formed(),
{
    assert(assembled(0, Map::empty(), Map::empty()).employees =~= Map::empty());
    assert(assembled(0, Map::empty(), Map::empty()).leave_requests =~= Map::empty());
}

/// A new record of either kind gets an identifier under which neither
/// collection holds a record, and a new leave request is pending.
pub proof fn law_new_record_is_fresh(
    registry: RegistryView,
    name: Seq<char>,
    department: Seq<char>,
    position: Seq<char>,
    remaining_leave_days: u32,
    employee_id: u64,
    start_date: u64,
    end_date: u64,
    reason: Seq<char>,
)
    requires
        registry.well_formed(),
    ensures
        ({
            let employee = registry.new_employee(name, department, position, remaining_leave_days);
            let request = registry.new_leave_request(employee_id, start_date, end_date, reason);
            &&& request.status == LeaveStatus::Pending
            &&& !registry.employees.contains_key(request.id)
            &&& !registry.leave_requests.contains_key(request.id)
            &&& !registry.employees.contains_key(employee.id)
            &&& !registry.leave_requests.contains_key(employee.id)
        }),
{
}

/// No operation lowers the counter, and creating a record raises it.
pub proof fn law_counter_only_grows(
    registry: RegistryView,
    employee: EmployeeView,
    request: LeaveRequestView,
    id: u64,
)
    requires
        registry.next_id < u64::MAX,
    ensures
        registry.with_id_taken().next_id == registry.next_id + 1,
        registry.with_employee(employee).next_id == registry.next_id,
        registry.with_leave_request(request).next_id == registry.next_id,
        registry.without_employee(id).next_id == registry.next_id,
        registry.without_leave_request(id).next_id == registry.next_id,
{
}

/// A record created once the counter has moved past an identifier does not
/// get that identifier again: whatever was created in `earlier`, of either
/// kind, what is created in `later` has a larger identifier.
pub proof fn law_identifiers_are_never_handed_out_twice(
    earlier: RegistryView,
    later: RegistryView,
    name: Seq<char>,
    department: Seq<char>,
    position: Seq<char>,
    remaining_leave_days: u32,
    employee_id: u64,
    start_date: u64,
    end_date: u64,
    reason: Seq<char>,
)
    requires
        earlier.next_id < u64::MAX,
        earlier.with_id_taken().next_id <= later.next_id,
    ensures
        ({
            let first_employee = earlier.new_employee(
                name,
                department,
                position,
                remaining_leave_days,
            );
            let first_request = earlier.new_leave_request(
                employee_id,
                start_date,
                end_date,
                reason,
            );
            let next_employee = later.new_employee(
                name,
                department,
                position,
                remaining_leave_days,
            );
            let next_request = later.new_leave_request(employee_id, start_date, end_date, reason);
            &&& first_employee.id < next_employee.id
            &&& first_employee.id < next_request.id
            &&& first_request.id < next_employee.id
            &&& first_request.id < next_request.id
        }),
{
}

/// Looking up a record that was just created, under its identifier, finds
/// that record, and the registry stays well formed.
pub proof fn law_created_record_is_found(
    registry: RegistryView,
    name: Seq<char>,
    department: Seq<char>,
    position: Seq<char>,
    remaining_leave_days: u32,
    employee_id: u64,
    start_date: u64,
    end_date: u64,
    reason: Seq<char>,
)
    requires
        registry.well_formed(),
        registry.next_id < u64::MAX,
    ensures
        ({
            let employee = registry.new_employee(name, department, position, remaining_leave_days);
            let after = registry.with_id_taken().with_employee(employee);
            &&& after.find_employee(employee.id) == Ok::<EmployeeView, Error>(employee)
            &&& employee_fits(employee) ==> after.well_formed()
        }),
        ({
            let request = registry.new_leave_request(employee_id, start_date, end_date, reason);
            let after = registry.with_id_taken().with_leave_request(request);
            &&& after.find_leave_request(request.id) == Ok::<LeaveRequestView, Error>(request)
            &&& leave_request_fits(request) ==> after.well_formed()
        }),
{
}

/// Creating a record leaves every record that was there as it was.
pub proof fn law_creating_keeps_other_records(
    registry: RegistryView,
    employee: EmployeeView,
    request: LeaveRequestView,
    id: u64,
)
    requires
        registry.well_formed(),
        employee.id == registry.next_id,
        request.id == registry.next_id,
    ensures
        registry.with_id_taken().with_employee(employee).find_leave_request(id)
            == registry.find_leave_request(id),
        registry.with_id_taken().with_leave_request(request).find_employee(id)
            == registry.find_employee(id),
        registry.employees.contains_key(id) ==> registry.with_id_taken().with_employee(
            employee,
        ).find_employee(id) == registry.find_employee(id),
        registry.leave_requests.contains_key(id) ==> registry.with_id_taken().with_leave_request(
            request,
        ).find_leave_request(id) == registry.find_leave_request(id),
{
}

/// Looking up an employee that was just updated finds the new fields under
/// the identifier it had.
pub proof fn law_updated_employee_is_found(
    registry: RegistryView,
    id: u64,
    name: Seq<char>,
    department: Seq<char>,
    position: Seq<char>,
    remaining_leave_days: u32,
)
    requires
        registry.well_formed(),
        registry.employees.contains_key(id),
    ensures
        ({
            let after = updated_employee(
                registry.employees[id],
                name,
                department,
                position,
                remaining_leave_days,
            );
            &&& after == (EmployeeView { id, name, department, position, remaining_leave_days })
            &&& registry.with_employee(after).find_employee(id) == Ok::<EmployeeView, Error>(
                after,
            )
        }),
{
}

/// Looking up a leave request that was just updated finds the new dates
/// and reason, and the identifier, employee and status it had.
pub proof fn law_updated_leave_request_is_found(
    registry: RegistryView,
    id: u64,
    start_date: u64,
    end_date: u64,
    reason: Seq<char>,
)
    requires
        registry.well_formed(),
        registry.leave_requests.contains_key(id),
    ensures
        ({
            let before = registry.leave_requests[id];
            let after = updated_leave_request(before, start_date, end_date, reason);
            &&& after == (LeaveRequestView {
                id,
                employee_id: before.employee_id,
                start_date,
                end_date,
                reason,
                status: before.status,
            })
            &&& registry.with_leave_request(after).find_leave_request(id) == Ok::<
                LeaveRequestView,
                Error,
            >(after)
        }),
{
}

/// A deleted record is not found, and deleting it again finds nothing to
/// delete and changes nothing.
pub proof fn law_deleted_record_is_gone(registry: RegistryView, id: u64)
    ensures
        registry.without_employee(id).find_employee(id) == Err::<EmployeeView, Error>(
            Error::NotFound { collection: Collection::Employees, id },
        ),
        registry.without_employee(id).without_employee(id) == registry.without_employee(id),
        registry.without_leave_request(id).find_leave_request(id) == Err::<
            LeaveRequestView,
            Error,
        >(Error::NotFound { collection: Collection::LeaveRequests, id }),
        registry.without_leave_request(id).without_leave_request(id)
            == registry.without_leave_request(id),
{
    assert(registry.without_employee(id).without_employee(id).employees
        =~= registry.without_employee(id).employees);
    assert(registry.without_leave_request(id).without_leave_request(id).leave_requests
        =~= registry.without_leave_request(id).leave_requests);
}

/// Deleting an employee leaves every leave request as it was, those that
/// name the employee too, and every other employee.
pub proof fn law_deleting_an_employee_keeps_the_rest(registry: RegistryView, id: u64, other: u64)
    ensures
        registry.without_employee(id).leave_requests == registry.leave_requests,
        other != id ==> registry.without_employee(id).find_employee(other)
            == registry.find_employee(other),
        registry.well_formed() ==> registry.without_employee(id).well_formed(),
{
}

/// A status change gives the request that status, whatever its status was,
/// changes nothing else of it, and is found afterwards. It cannot fail for
/// want of room: the encoding keeps its length.
pub proof fn law_status_is_overwritten(registry: RegistryView, id: u64, status: LeaveStatus)
    requires
        registry.well_formed(),
        registry.leave_requests.contains_key(id),
    ensures
        ({
            let before = registry.leave_requests[id];
            let after = with_status(before, status);
            &&& after.status == status
            &&& after == (LeaveRequestView { status: after.status, ..before })
            &&& leave_request_fits(after)
            &&& registry.with_leave_request(after).find_leave_request(id) == Ok::<
                LeaveRequestView,
                Error,
            >(after)
            &&& registry.with_leave_request(after).well_formed()
        }),
{
    lemma_leave_request_shape(registry.leave_requests[id]);
    lemma_leave_request_shape(with_status(registry.leave_requests[id], status));
}

/// The leave balance is the number of days that the last registration or
/// update of the employee gave.
pub proof fn law_balance_is_the_days_last_given(
    registry: RegistryView,
    id: u64,
    name: Seq<char>,
    department: Seq<char>,
    position: Seq<char>,
    remaining_leave_days: u32,
)
    requires
        registry.well_formed(),
    ensures
        ({
            let created = registry.new_employee(name, department, position, remaining_leave_days);
            registry.with_id_taken().with_employee(created).leave_balance(created.id) == Ok::<
                u32,
                Error,
            >(remaining_leave_days)
        }),
        registry.employees.contains_key(id) ==> registry.with_employee(
            updated_employee(
                registry.employees[id],
                name,
                department,
                position,
                remaining_leave_days,
            ),
        ).leave_balance(id) == Ok::<u32, Error>(remaining_leave_days),
        registry.employees.contains_key(id) ==> registry.leave_balance(id) == Ok::<u32, Error>(
            registry.employees[id].remaining_leave_days,
        ),
{
}

/// A change to the leave requests leaves every leave balance as it was.
pub proof fn law_leave_requests_do_not_touch_balances(
    registry: RegistryView,
    request: LeaveRequestView,
    id: u64,
    employee_id: u64,
)
    ensures
        registry.with_leave_request(request).leave_balance(employee_id) == registry.leave_balance(
            employee_id,
        ),
        registry.with_id_taken().with_leave_request(request).leave_balance(employee_id)
            == registry.leave_balance(employee_id),
        registry.without_leave_request(id).leave_balance(employee_id) == registry.leave_balance(
            employee_id,
        ),
{
}

/// Whether the identifiers in `requests` ascend.
pub open spec fn ascending(requests: Seq<LeaveRequestView>) -> bool {
    forall|i: int, j: int|
        0 <= i < j < requests.len() ==> (#[trigger] requests[i]).id < (#[trigger] requests[j]).id
}

/// The full list of leave requests holds each stored request once, by
/// ascending identifier, and nothing else.
pub proof fn law_all_leave_requests_are_listed(registry: RegistryView)
    requires
        registry.well_formed(),
    ensures
        ascending(registry.all_leave_requests()),
        forall|i: int|
            0 <= i < registry.all_leave_requests().len()
                ==> registry.leave_requests.contains_pair(
                (#[trigger] registry.all_leave_requests()[i]).id,
                registry.all_leave_requests()[i],
            ),
        forall|id: u64| #[trigger]
            registry.leave_requests.contains_key(id) ==> registry.all_leave_requests().contains(
                registry.leave_requests[id],
            ),
{
    let entries = entries_in_key_order(registry.leave_requests);
    let all = registry.all_leave_requests();
    lemma_listing_exists(registry.leave_requests);
    assert forall|i: int| 0 <= i < all.len() implies registry.leave_requests.contains_pair(
        (#[trigger] all[i]).id,
        all[i],
    ) by {
        assert(registry.leave_requests.contains_pair(entries[i].0, entries[i].1));
    }
    assert forall|i: int, j: int| 0 <= i < j < all.len() implies (#[trigger] all[i]).id < (
    #[trigger] all[j]).id by {
        assert(registry.leave_requests.contains_pair(entries[i].0, entries[i].1));
        assert(registry.leave_requests.contains_pair(entries[j].0, entries[j].1));
        assert(entries[i].0 < entries[j].0);
    }
    assert forall|id: u64| #[trigger]
        registry.leave_requests.contains_key(id) implies all.contains(
        registry.leave_requests[id],
    ) by {
        let i = choose|i: int| 0 <= i < entries.len() && (#[trigger] entries[i]).0 == id;
        assert(registry.leave_requests.contains_pair(entries[i].0, entries[i].1));
        assert(all[i] == registry.leave_requests[id]);
    }
}

/// The full list of employees holds each stored employee once, by ascending
/// identifier, and nothing else.
pub proof fn law_all_employees_are_listed(registry: RegistryView)
    requires
        registry.well_formed(),
    ensures
        forall|i: int, j: int|
            0 <= i < j < registry.all_employees().len() ==> (
            #[trigger] registry.all_employees()[i]).id < (#[trigger] registry.all_employees()[j]).id,
        forall|i: int|
            0 <= i < registry.all_employees().len() ==> registry.employees.contains_pair(
                (#[trigger] registry.all_employees()[i]).id,
                registry.all_employees()[i],
            ),
        forall|id: u64| #[trigger]
            registry.employees.contains_key(id) ==> registry.all_employees().contains(
                registry.employees[id],
            ),
{
    let entries = entries_in_key_order(registry.employees);
    let all = registry.all_employees();
    lemma_listing_exists(registry.employees);
    assert forall|i: int| 0 <= i < all.len() implies registry.employees.contains_pair(
        (#[trigger] all[i]).id,
        all[i],
    ) by {
        assert(registry.employees.contains_pair(entries[i].0, entries[i].1));
    }
    assert forall|i: int, j: int| 0 <= i < j < all.len() implies (#[trigger] all[i]).id < (
    #[trigger] all[j]).id by {
        assert(registry.employees.contains_pair(entries[i].0, entries[i].1));
        assert(registry.employees.contains_pair(entries[j].0, entries[j].1));
        assert(entries[i].0 < entries[j].0);
    }
    assert forall|id: u64| #[trigger] registry.employees.contains_key(id) implies all.contains(
        registry.employees[id],
    ) by {
        let i = choose|i: int| 0 <= i < entries.len() && (#[trigger] entries[i]).0 == id;
        assert(registry.employees.contains_pair(entries[i].0, entries[i].1));
        assert(all[i] == registry.employees[id]);
    }
}

/// Taking from an ascending list the requests that `wanted` holds of gives
/// an ascending list again: exactly those requests of the list.
pub proof fn lemma_selection_of_ascending(
    requests: Seq<LeaveRequestView>,
    wanted: spec_fn(LeaveRequestView) -> bool,
)
    requires
        ascending(requests),
    ensures
        ascending(requests.filter(wanted)),
        forall|request: LeaveRequestView| #[trigger]
            requests.filter(wanted).contains(request) <==> requests.contains(request) && wanted(
                request,
            ),
    decreases requests.len(),
{
    let selected = requests.filter(wanted);
    assert forall|request: LeaveRequestView| #[trigger]
        selected.contains(request) <==> requests.contains(request) && wanted(request) by {
        if selected.contains(request) {
            let i = selected.index_of(request);
            requests.lemma_filter_pred(wanted, i);
            requests.lemma_filter_contains_rev(wanted, request);
        }
        if requests.contains(request) && wanted(request) {
            let j = requests.index_of(request);
            requests.lemma_filter_contains(wanted, j);
        }
    }
    if requests.len() > 0 {
        let front = requests.drop_last();
        let last = requests.last();
        let kept = front.filter(wanted);
        lemma_selection_of_ascending(front, wanted);
        assert(selected == if wanted(last) {
            kept.push(last)
        } else {
            kept
        }) by {
            reveal(Seq::filter);
        }
        assert forall|i: int, j: int| 0 <= i < j < selected.len() implies (
        #[trigger] selected[i]).id < (#[trigger] selected[j]).id by {
            if j < kept.len() {
                assert(selected[i] == kept[i]);
                assert(selected[j] == kept[j]);
            } else {
                assert(selected[i] == kept[i]);
                assert(kept.contains(kept[i]));
                front.lemma_filter_contains_rev(wanted, kept[i]);
                let k = front.index_of(kept[i]);
                assert(requests[k] == kept[i]);
                assert(requests[requests.len() - 1] == selected[j]);
            }
        }
    } else {
        assert(selected.len() == 0) by {
            reveal(Seq::filter);
        }
    }
}

/// The pending leave requests are exactly the requests of the full list
/// that are pending, by ascending identifier.
pub proof fn law_pending_are_the_pending_of_all(registry: RegistryView)
    requires
        registry.well_formed(),
    ensures
        registry.pending_leave_requests() == registry.all_leave_requests().filter(
            |request: LeaveRequestView| request.status == LeaveStatus::Pending,
        ),
        ascending(registry.pending_leave_requests()),
        forall|request: LeaveRequestView| #[trigger]
            registry.pending_leave_requests().contains(request)
                <==> registry.all_leave_requests().contains(request) && request.status
                == LeaveStatus::Pending,
{
    law_all_leave_requests_are_listed(registry);
    lemma_selection_of_ascending(
        registry.all_leave_requests(),
        |request: LeaveRequestView| request.status == LeaveStatus::Pending,
    );
}

/// The leave requests of an employee are exactly the requests of the full
/// list that name it, by ascending identifier. Where no stored request names
/// it, the list is empty, whether or not such an employee is on record.
pub proof fn law_requests_of_an_employee_are_those_of_all(registry: RegistryView, employee_id: u64)
    requires
        registry.well_formed(),
    ensures
        registry.leave_requests_of(employee_id) == registry.all_leave_requests().filter(
            |request: LeaveRequestView| request.employee_id == employee_id,
        ),
        ascending(registry.leave_requests_of(employee_id)),
        forall|request: LeaveRequestView| #[trigger]
            registry.leave_requests_of(employee_id).contains(request)
                <==> registry.all_leave_requests().contains(request) && request.employee_id
                == employee_id,
        (forall|id: u64| #[trigger]
            registry.leave_requests.contains_key(id) ==> registry.leave_requests[id].employee_id
                != employee_id) ==> registry.leave_requests_of(employee_id).len() == 0,
{
    law_all_leave_requests_are_listed(registry);
    let all = registry.all_leave_requests();
    let of_employee = registry.leave_requests_of(employee_id);
    lemma_selection_of_ascending(
        all,
        |request: LeaveRequestView| request.employee_id == employee_id,
    );
    if (forall|id: u64| #[trigger]
        registry.leave_requests.contains_key(id) ==> registry.leave_requests[id].employee_id
            != employee_id) && of_employee.len() > 0 {
        let request = of_employee[0];
        assert(of_employee.contains(request));
        assert(all.contains(request));
        let i = all.index_of(request);
        assert(registry.leave_requests.contains_pair(all[i].id, all[i]));
        assert(registry.leave_requests.contains_key(all[i].id));
    }
}

} // verus!
