use ic_stable_structures::memory_manager::{MemoryId, MemoryManager, VirtualMemory};
use ic_stable_structures::storable::Blob;
use ic_stable_structures::{Cell, DefaultMemoryImpl, StableBTreeMap};
use leave_management::error::{Collection, Error};
use leave_management::records::{Employee, LeaveRequest, LeaveStatus};
use leave_management::registry::LeaveRegistry;
use leave_management::storage::{IdCell, RecordMap};

type Memory = VirtualMemory<DefaultMemoryImpl>;

fn open_counter(manager: &MemoryManager<DefaultMemoryImpl>) -> Cell<u64, Memory> {
    Cell::init(manager.get(MemoryId::new(0)), 0).unwrap()
}

fn open_map(
    manager: &MemoryManager<DefaultMemoryImpl>,
    id: u8,
) -> StableBTreeMap<u64, Blob<1024>, Memory> {
    StableBTreeMap::init(manager.get(MemoryId::new(id)))
}

fn open_registry(manager: &MemoryManager<DefaultMemoryImpl>) -> Result<LeaveRegistry, Error> {
    LeaveRegistry::from_parts(
        IdCell { cell: open_counter(manager) },
        RecordMap { map: open_map(manager, 5) },
        RecordMap { map: open_map(manager, 6) },
    )
}

fn blob(bytes: &[u8]) -> Blob<1024> {
    Blob::try_from(bytes).unwrap()
}

fn employee(id: u64) -> Employee {
    Employee {
        id,
        name: "Ann".to_string(),
        department: "Ops".to_string(),
        position: "Lead".to_string(),
        remaining_leave_days: 10,
    }
}

fn leave_request(id: u64) -> LeaveRequest {
    LeaveRequest {
        id,
        employee_id: 0,
        start_date: 1,
        end_date: 2,
        reason: "rest".to_string(),
        status: LeaveStatus::Approved,
    }
}

#[test]
fn records_and_counter_outlive_the_registry() {
    let manager = MemoryManager::init(DefaultMemoryImpl::default());
    let (ann, request) = {
        let mut registry = open_registry(&manager).unwrap();
        let ann = registry
            .register_employee("Ann".to_string(), "Ops".to_string(), "Lead".to_string(), 10)
            .unwrap();
        let request = registry.submit_leave_request(ann.id, 1, 2, "rest".to_string()).unwrap();
        registry.approve_leave_request(request.id).unwrap();
        (ann, request)
    };

    let mut registry = open_registry(&manager).unwrap();
    assert_eq!(registry.peek_next_id(), 2);
    assert_eq!(registry.list_employees(), vec![ann]);
    assert_eq!(
        registry.list_leave_requests(),
        vec![LeaveRequest { status: LeaveStatus::Approved, ..request }]
    );
    let bob = registry
        .register_employee("Bob".to_string(), "Ops".to_string(), "Dev".to_string(), 5)
        .unwrap();
    assert_eq!(bob.id, 2);
}

#[test]
fn records_are_stored_as_their_encoding() {
    let manager = MemoryManager::init(DefaultMemoryImpl::default());
    {
        let mut registry = open_registry(&manager).unwrap();
        registry
            .register_employee("Ann".to_string(), "Ops".to_string(), "Lead".to_string(), 10)
            .unwrap();
        registry.submit_leave_request(0, 1, 2, "rest".to_string()).unwrap();
        registry.approve_leave_request(1).unwrap();
    }
    assert_eq!(*open_counter(&manager).get(), 2);
    let employees = open_map(&manager, 6);
    assert_eq!(employees.len(), 1);
    assert_eq!(employees.get(&0).unwrap().as_slice(), &employee(0).to_bytes().unwrap()[..]);
    let leave_requests = open_map(&manager, 5);
    assert_eq!(leave_requests.len(), 1);
    assert_eq!(
        leave_requests.get(&1).unwrap().as_slice(),
        &leave_request(1).to_bytes().unwrap()[..]
    );
}

#[test]
fn parts_filled_elsewhere_are_taken_when_consistent() {
    let manager = MemoryManager::init(DefaultMemoryImpl::default());
    open_counter(&manager).set(10).unwrap();
    let mut employees = open_map(&manager, 6);
    for id in [7u64, 2, 9] {
        employees.insert(id, blob(&employee(id).to_bytes().unwrap()));
    }
    let mut leave_requests = open_map(&manager, 5);
    leave_requests.insert(4, blob(&leave_request(4).to_bytes().unwrap()));
    drop(employees);
    drop(leave_requests);

    let registry = open_registry(&manager).unwrap();
    assert_eq!(registry.peek_next_id(), 10);
    assert_eq!(registry.list_employees(), vec![employee(2), employee(7), employee(9)]);
    assert_eq!(registry.list_leave_requests(), vec![leave_request(4)]);
    assert_eq!(registry.get_pending_leave_requests(), vec![]);
    assert_eq!(registry.get_employee(7), Ok(employee(7)));
}

#[test]
fn stored_bytes_that_encode_no_employee_are_refused() {
    let manager = MemoryManager::init(DefaultMemoryImpl::default());
    open_counter(&manager).set(10).unwrap();
    let mut employees = open_map(&manager, 6);
    employees.insert(1, blob(&employee(1).to_bytes().unwrap()));
    employees.insert(2, blob(&[1, 2, 3]));
    drop(employees);
    assert_eq!(
        open_registry(&manager).err(),
        Some(Error::DeserializationError { collection: Collection::Employees })
    );
}

#[test]
fn stored_bytes_that_encode_no_leave_request_are_refused() {
    let manager = MemoryManager::init(DefaultMemoryImpl::default());
    open_counter(&manager).set(10).unwrap();
    let mut leave_requests = open_map(&manager, 5);
    let mut bytes = leave_request(3).to_bytes().unwrap();
    bytes[32] = 9;
    leave_requests.insert(3, blob(&bytes));
    drop(leave_requests);
    assert_eq!(
        open_registry(&manager).err(),
        Some(Error::DeserializationError { collection: Collection::LeaveRequests })
    );
}

#[test]
fn an_empty_stored_value_is_refused() {
    let manager = MemoryManager::init(DefaultMemoryImpl::default());
    open_counter(&manager).set(10).unwrap();
    let mut employees = open_map(&manager, 6);
    employees.insert(0, blob(&[]));
    drop(employees);
    assert_eq!(
        open_registry(&manager).err(),
        Some(Error::DeserializationError { collection: Collection::Employees })
    );
}

#[test]
fn undecodable_employees_are_reported_before_anything_else() {
    let manager = MemoryManager::init(DefaultMemoryImpl::default());
    let mut employees = open_map(&manager, 6);
    employees.insert(0, blob(&[0xff]));
    let mut leave_requests = open_map(&manager, 5);
    leave_requests.insert(1, blob(&[0xff]));
    leave_requests.insert(2, blob(&leave_request(3).to_bytes().unwrap()));
    drop(employees);
    drop(leave_requests);
    assert_eq!(
        open_registry(&manager).err(),
        Some(Error::DeserializationError { collection: Collection::Employees })
    );
}

#[test]
fn undecodable_requests_are_reported_before_misplaced_employees() {
    let manager = MemoryManager::init(DefaultMemoryImpl::default());
    open_counter(&manager).set(10).unwrap();
    let mut employees = open_map(&manager, 6);
    employees.insert(5, blob(&employee(6).to_bytes().unwrap()));
    let mut leave_requests = open_map(&manager, 5);
    leave_requests.insert(1, blob(&[0xff]));
    drop(employees);
    drop(leave_requests);
    assert_eq!(
        open_registry(&manager).err(),
        Some(Error::DeserializationError { collection: Collection::LeaveRequests })
    );
}

#[test]
fn a_record_under_another_identifier_is_invalid_input() {
    let manager = MemoryManager::init(DefaultMemoryImpl::default());
    open_counter(&manager).set(10).unwrap();
    let mut employees = open_map(&manager, 6);
    employees.insert(5, blob(&employee(6).to_bytes().unwrap()));
    drop(employees);
    assert_eq!(open_registry(&manager).err(), Some(Error::InvalidInput));
}

#[test]
fn a_counter_that_has_not_passed_every_identifier_is_invalid_input() {
    let manager = MemoryManager::init(DefaultMemoryImpl::default());
    open_counter(&manager).set(4).unwrap();
    let mut leave_requests = open_map(&manager, 5);
    leave_requests.insert(3, blob(&leave_request(3).to_bytes().unwrap()));
    leave_requests.insert(4, blob(&leave_request(4).to_bytes().unwrap()));
    drop(leave_requests);
    assert_eq!(open_registry(&manager).err(), Some(Error::InvalidInput));

    open_counter(&manager).set(5).unwrap();
    assert!(open_registry(&manager).is_ok());
}

#[test]
fn the_last_identifier_can_be_stored_but_not_passed() {
    let manager = MemoryManager::init(DefaultMemoryImpl::default());
    open_counter(&manager).set(u64::MAX - 1).unwrap();
    let mut registry = open_registry(&manager).unwrap();
    let last = registry
        .register_employee("Ann".to_string(), "Ops".to_string(), "Lead".to_string(), 10)
        .unwrap();
    assert_eq!(last.id, u64::MAX - 1);
    assert_eq!(registry.peek_next_id(), u64::MAX);
    assert_eq!(registry.get_employee(u64::MAX - 1), Ok(last));
}
