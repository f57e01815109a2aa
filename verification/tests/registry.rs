use ic_stable_structures::memory_manager::{MemoryId, MemoryManager};
use ic_stable_structures::{Cell, DefaultMemoryImpl, StableBTreeMap};
use leave_management::codec::MAX_RECORD_SIZE;
use leave_management::error::{Collection, Error};
use leave_management::records::{Employee, LeaveRequest, LeaveStatus};
use leave_management::registry::LeaveRegistry;
use leave_management::storage::{IdCell, RecordMap};

fn fresh_registry() -> LeaveRegistry {
    let manager = MemoryManager::init(DefaultMemoryImpl::default());
    let counter = IdCell { cell: Cell::init(manager.get(MemoryId::new(0)), 0).unwrap() };
    let leave_requests = RecordMap { map: StableBTreeMap::init(manager.get(MemoryId::new(5))) };
    let employees = RecordMap { map: StableBTreeMap::init(manager.get(MemoryId::new(6))) };
    LeaveRegistry::from_parts(counter, leave_requests, employees).unwrap()
}

fn register(registry: &mut LeaveRegistry, name: &str, days: u32) -> Employee {
    registry
        .register_employee(name.to_string(), "Engineering".to_string(), "Developer".to_string(), days)
        .unwrap()
}

fn submit(registry: &mut LeaveRegistry, employee_id: u64, reason: &str) -> LeaveRequest {
    registry.submit_leave_request(employee_id, 100, 105, reason.to_string()).unwrap()
}

fn ids(requests: &[LeaveRequest]) -> Vec<u64> {
    requests.iter().map(|request| request.id).collect()
}

fn no_employee(id: u64) -> Error {
    Error::NotFound { collection: Collection::Employees, id }
}

fn no_leave_request(id: u64) -> Error {
    Error::NotFound { collection: Collection::LeaveRequests, id }
}

#[test]
fn register_submit_approve_delete() {
    let mut registry = fresh_registry();

    let employee = register(&mut registry, "Ann", 10);
    assert_eq!(employee.id, 0);
    assert_eq!(employee.remaining_leave_days, 10);

    let request = submit(&mut registry, 0, "rest");
    assert_eq!(request.id, 1);
    assert_eq!(request.status, LeaveStatus::Pending);

    assert_eq!(registry.approve_leave_request(1), Ok(()));
    assert_eq!(registry.get_leave_request(1).unwrap().status, LeaveStatus::Approved);
    assert_eq!(registry.calculate_leave_balance(0), Ok(10));

    assert_eq!(registry.delete_employee(0), Ok(()));
    assert_eq!(registry.get_employee(0), Err(no_employee(0)));
    assert_eq!(registry.get_leave_request(1).unwrap().employee_id, 0);
}

#[test]
fn a_fresh_registry_is_empty_and_starts_at_zero() {
    let registry = fresh_registry();
    assert_eq!(registry.peek_next_id(), 0);
    assert!(registry.list_employees().is_empty());
    assert!(registry.list_leave_requests().is_empty());
    assert!(registry.get_pending_leave_requests().is_empty());
    assert_eq!(registry.get_employee(0), Err(no_employee(0)));
    assert_eq!(registry.get_leave_request(0), Err(no_leave_request(0)));
}

#[test]
fn submitted_requests_are_pending_with_fresh_identifiers() {
    let mut registry = fresh_registry();
    let mut seen = Vec::new();
    for round in 0..20u64 {
        assert_eq!(registry.peek_next_id(), 2 * round);
        let employee = register(&mut registry, "Ann", 1);
        assert!(!seen.contains(&employee.id));
        seen.push(employee.id);
        let request = submit(&mut registry, 77, "rest");
        assert_eq!(request.status, LeaveStatus::Pending);
        assert_eq!(request.id, 2 * round + 1);
        assert!(!seen.contains(&request.id));
        seen.push(request.id);
    }
    assert_eq!(registry.peek_next_id(), 40);
}

#[test]
fn next_id_returns_the_counter_and_moves_it_on() {
    let mut registry = fresh_registry();
    assert_eq!(registry.next_id(), 0);
    assert_eq!(registry.next_id(), 1);
    assert_eq!(registry.peek_next_id(), 2);
    assert_eq!(registry.peek_next_id(), 2);
    assert_eq!(register(&mut registry, "Ann", 1).id, 2);
    assert_eq!(registry.next_id(), 3);
    assert_eq!(submit(&mut registry, 2, "rest").id, 4);
}

#[test]
fn identifiers_are_not_reused_after_a_delete() {
    let mut registry = fresh_registry();
    let first = register(&mut registry, "Ann", 1);
    assert_eq!(registry.delete_employee(first.id), Ok(()));
    let second = register(&mut registry, "Bob", 1);
    assert_eq!(second.id, first.id + 1);
}

#[test]
fn a_created_record_is_the_one_that_get_returns() {
    let mut registry = fresh_registry();
    let employee = registry
        .register_employee("Ann".to_string(), "Ops".to_string(), "Lead".to_string(), 21)
        .unwrap();
    assert_eq!(
        employee,
        Employee {
            id: 0,
            name: "Ann".to_string(),
            department: "Ops".to_string(),
            position: "Lead".to_string(),
            remaining_leave_days: 21,
        }
    );
    assert_eq!(registry.get_employee(employee.id), Ok(employee.clone()));
    assert_eq!(registry._get_employee(&employee.id), Some(employee));

    let request = registry.submit_leave_request(42, 19_000, 19_010, "rest".to_string()).unwrap();
    assert_eq!(
        request,
        LeaveRequest {
            id: 1,
            employee_id: 42,
            start_date: 19_000,
            end_date: 19_010,
            reason: "rest".to_string(),
            status: LeaveStatus::Pending,
        }
    );
    assert_eq!(registry.get_leave_request(request.id), Ok(request.clone()));
    assert_eq!(registry._get_leave_request(&request.id), Some(request));
    assert_eq!(registry._get_employee(&1), None);
    assert_eq!(registry._get_leave_request(&0), None);
}

#[test]
fn the_two_collections_are_apart() {
    let mut registry = fresh_registry();
    let employee = register(&mut registry, "Ann", 1);
    let request = submit(&mut registry, employee.id, "rest");
    assert_eq!(registry.get_leave_request(employee.id), Err(no_leave_request(employee.id)));
    assert_eq!(registry.get_employee(request.id), Err(no_employee(request.id)));
}

#[test]
fn an_updated_employee_is_the_one_that_get_returns() {
    let mut registry = fresh_registry();
    register(&mut registry, "Ann", 10);
    let other = register(&mut registry, "Bob", 5);
    let updated = registry
        .update_employee(0, "Anna".to_string(), "Sales".to_string(), "Head".to_string(), 7)
        .unwrap();
    assert_eq!(
        updated,
        Employee {
            id: 0,
            name: "Anna".to_string(),
            department: "Sales".to_string(),
            position: "Head".to_string(),
            remaining_leave_days: 7,
        }
    );
    assert_eq!(registry.get_employee(0), Ok(updated));
    assert_eq!(registry.get_employee(1), Ok(other));
    assert_eq!(registry.peek_next_id(), 2);
}

#[test]
fn updating_a_missing_employee_changes_nothing() {
    let mut registry = fresh_registry();
    let employee = register(&mut registry, "Ann", 10);
    assert_eq!(
        registry.update_employee(9, "X".to_string(), "Y".to_string(), "Z".to_string(), 1),
        Err(no_employee(9))
    );
    assert_eq!(registry.list_employees(), vec![employee]);
}

#[test]
fn an_updated_request_keeps_its_employee_and_status() {
    let mut registry = fresh_registry();
    let request = submit(&mut registry, 4, "rest");
    assert_eq!(registry.reject_leave_request(request.id), Ok(()));
    let updated = registry.update_leave_request(request.id, 1, 2, "moved".to_string()).unwrap();
    assert_eq!(
        updated,
        LeaveRequest {
            id: request.id,
            employee_id: 4,
            start_date: 1,
            end_date: 2,
            reason: "moved".to_string(),
            status: LeaveStatus::Rejected,
        }
    );
    assert_eq!(registry.get_leave_request(request.id), Ok(updated));
    assert_eq!(
        registry.update_leave_request(8, 1, 2, "moved".to_string()),
        Err(no_leave_request(8))
    );
}

#[test]
fn a_deleted_employee_is_gone_and_stays_gone() {
    let mut registry = fresh_registry();
    let kept = register(&mut registry, "Ann", 10);
    let gone = register(&mut registry, "Bob", 10);
    assert_eq!(registry.delete_employee(gone.id), Ok(()));
    assert_eq!(registry.get_employee(gone.id), Err(no_employee(gone.id)));
    assert_eq!(registry.delete_employee(gone.id), Err(no_employee(gone.id)));
    assert_eq!(registry.calculate_leave_balance(gone.id), Err(no_employee(gone.id)));
    assert_eq!(registry.list_employees(), vec![kept]);
}

#[test]
fn a_deleted_request_is_gone_and_stays_gone() {
    let mut registry = fresh_registry();
    let kept = submit(&mut registry, 1, "rest");
    let gone = submit(&mut registry, 1, "more rest");
    assert_eq!(registry.delete_leave_request(gone.id), Ok(()));
    assert_eq!(registry.get_leave_request(gone.id), Err(no_leave_request(gone.id)));
    assert_eq!(registry.delete_leave_request(gone.id), Err(no_leave_request(gone.id)));
    assert_eq!(registry.approve_leave_request(gone.id), Err(no_leave_request(gone.id)));
    assert_eq!(registry.reject_leave_request(gone.id), Err(no_leave_request(gone.id)));
    assert_eq!(registry.list_leave_requests(), vec![kept]);
}

#[test]
fn approve_and_reject_overwrite_any_status() {
    let mut registry = fresh_registry();
    let id = submit(&mut registry, 1, "rest").id;
    let status = |registry: &LeaveRegistry| registry.get_leave_request(id).unwrap().status;

    assert_eq!(registry.approve_leave_request(id), Ok(()));
    assert_eq!(status(&registry), LeaveStatus::Approved);
    assert_eq!(registry.approve_leave_request(id), Ok(()));
    assert_eq!(status(&registry), LeaveStatus::Approved);
    assert_eq!(registry.reject_leave_request(id), Ok(()));
    assert_eq!(status(&registry), LeaveStatus::Rejected);
    assert_eq!(registry.reject_leave_request(id), Ok(()));
    assert_eq!(status(&registry), LeaveStatus::Rejected);
    assert_eq!(registry.approve_leave_request(id), Ok(()));
    assert_eq!(status(&registry), LeaveStatus::Approved);

    let request = registry.get_leave_request(id).unwrap();
    assert_eq!(request.employee_id, 1);
    assert_eq!(request.reason, "rest");
    assert_eq!((request.start_date, request.end_date), (100, 105));
}

#[test]
fn a_status_change_fits_even_at_the_largest_size() {
    let mut registry = fresh_registry();
    let reason = "r".repeat(MAX_RECORD_SIZE - 37);
    let id = registry.submit_leave_request(1, 2, 3, reason).unwrap().id;
    assert_eq!(registry.approve_leave_request(id), Ok(()));
    assert_eq!(registry.get_leave_request(id).unwrap().status, LeaveStatus::Approved);
}

#[test]
fn pending_requests_are_those_of_the_full_list_that_are_pending() {
    let mut registry = fresh_registry();
    for n in 0..12u64 {
        register(&mut registry, "Ann", 1);
        submit(&mut registry, n % 3, "rest");
    }
    assert_eq!(registry.approve_leave_request(3), Ok(()));
    assert_eq!(registry.reject_leave_request(9), Ok(()));
    assert_eq!(registry.delete_leave_request(13), Ok(()));

    let all = registry.list_leave_requests();
    assert_eq!(ids(&all), vec![1, 3, 5, 7, 9, 11, 15, 17, 19, 21, 23]);
    let expected: Vec<LeaveRequest> =
        all.into_iter().filter(|request| request.status == LeaveStatus::Pending).collect();
    let pending = registry.get_pending_leave_requests();
    assert_eq!(ids(&pending), vec![1, 5, 7, 11, 15, 17, 19, 21, 23]);
    assert_eq!(pending, expected);
}

#[test]
fn requests_of_an_employee_are_those_of_the_full_list_that_name_it() {
    let mut registry = fresh_registry();
    for n in 0..10u64 {
        submit(&mut registry, n % 3, "rest");
    }
    assert_eq!(registry.approve_leave_request(3), Ok(()));

    let all = registry.list_leave_requests();
    let expected: Vec<LeaveRequest> =
        all.into_iter().filter(|request| request.employee_id == 0).collect();
    let of_zero = registry.get_leave_requests_by_employee_id(0);
    assert_eq!(ids(&of_zero), vec![0, 3, 6, 9]);
    assert_eq!(of_zero, expected);
    assert_eq!(ids(&registry.get_leave_requests_by_employee_id(2)), vec![2, 5, 8]);
    assert_eq!(registry.get_leave_requests_by_employee_id(3), vec![]);
}

#[test]
fn lists_are_by_ascending_identifier() {
    let mut registry = fresh_registry();
    for n in 0..150u32 {
        register(&mut registry, "Ann", n);
    }
    for id in (0..150u64).filter(|id| id % 7 == 3) {
        assert_eq!(registry.delete_employee(id), Ok(()));
    }
    let listed = registry.list_employees();
    let expected: Vec<u64> = (0..150u64).filter(|id| id % 7 != 3).collect();
    assert_eq!(listed.iter().map(|employee| employee.id).collect::<Vec<u64>>(), expected);
    for employee in &listed {
        assert_eq!(u64::from(employee.remaining_leave_days), employee.id);
        assert_eq!(registry.get_employee(employee.id).as_ref(), Ok(employee));
    }
}

#[test]
fn the_balance_is_the_days_on_record() {
    let mut registry = fresh_registry();
    let id = register(&mut registry, "Ann", 10).id;
    assert_eq!(registry.calculate_leave_balance(id), Ok(10));
    let request = submit(&mut registry, id, "rest");
    assert_eq!(registry.approve_leave_request(request.id), Ok(()));
    assert_eq!(registry.calculate_leave_balance(id), Ok(10));
    registry
        .update_employee(id, "Ann".to_string(), "Ops".to_string(), "Lead".to_string(), 3)
        .unwrap();
    assert_eq!(registry.calculate_leave_balance(id), Ok(3));
    registry
        .update_employee(id, "Ann".to_string(), "Ops".to_string(), "Lead".to_string(), 0)
        .unwrap();
    assert_eq!(registry.calculate_leave_balance(id), Ok(0));
    assert_eq!(registry.calculate_leave_balance(id + 5), Err(no_employee(id + 5)));
}

#[test]
fn a_request_may_name_an_employee_that_does_not_exist() {
    let mut registry = fresh_registry();
    let request = submit(&mut registry, 999, "rest");
    assert_eq!(request.employee_id, 999);
    assert_eq!(ids(&registry.get_leave_requests_by_employee_id(999)), vec![request.id]);
}

#[test]
fn a_record_that_does_not_fit_is_refused_and_takes_no_identifier() {
    let mut registry = fresh_registry();
    let long = "x".repeat(MAX_RECORD_SIZE);
    assert_eq!(
        registry.register_employee(long.clone(), String::new(), String::new(), 1),
        Err(Error::SerializationError { collection: Collection::Employees })
    );
    assert_eq!(
        registry.submit_leave_request(0, 1, 2, long.clone()),
        Err(Error::SerializationError { collection: Collection::LeaveRequests })
    );
    assert_eq!(registry.peek_next_id(), 0);
    assert!(registry.list_employees().is_empty());
    assert!(registry.list_leave_requests().is_empty());

    let employee = register(&mut registry, "Ann", 1);
    let request = submit(&mut registry, 0, "rest");
    assert_eq!(
        registry.update_employee(employee.id, long.clone(), String::new(), String::new(), 1),
        Err(Error::SerializationError { collection: Collection::Employees })
    );
    assert_eq!(
        registry.update_leave_request(request.id, 1, 2, long),
        Err(Error::SerializationError { collection: Collection::LeaveRequests })
    );
    assert_eq!(registry.get_employee(employee.id), Ok(employee));
    assert_eq!(registry.get_leave_request(request.id), Ok(request));
}
