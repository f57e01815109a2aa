//! The two kinds of record and what they are in contracts.

use vstd::prelude::*;
use vstd::std_specs::cmp::PartialEqSpecImpl;

verus! {

/// Where a leave request stands. A request starts as `Pending`.
#[derive(Clone, Copy, Debug, PartialEq, Eq, Structural)]
pub enum LeaveStatus {
    Pending,
    Approved,
    Rejected,
}

/// An employee, keyed by `id`.
#[derive(Debug)]
pub struct Employee {
    pub id: u64,
    pub name: String,
    pub department: String,
    pub position: String,
    pub remaining_leave_days: u32,
}

/// An employee as contracts see it: the texts are sequences of characters.
pub struct EmployeeView {
    pub id: u64,
    pub name: Seq<char>,
    pub department: Seq<char>,
    pub position: Seq<char>,
    pub remaining_leave_days: u32,
}

impl View for Employee {
    type V = EmployeeView;

    open spec fn view(&self) -> EmployeeView {
        EmployeeView {
            id: self.id,
            name: self.name@,
            department: self.department@,
            position: self.position@,
            remaining_leave_days: self.remaining_leave_days,
        }
    }
}

impl Clone for Employee {
    fn clone(&self) -> (copy: Self)
        ensures
            copy@ == self@,
    {
        Employee {
            id: self.id,
            name: self.name.clone(),
            department: self.department.clone(),
            position: self.position.clone(),
            remaining_leave_days: self.remaining_leave_days,
        }
    }
}

impl PartialEq for Employee {
    fn eq(&self, other: &Self) -> (equal: bool) {
        self.id == other.id && self.name == other.name && self.department == other.department
            && self.position == other.position && self.remaining_leave_days
            == other.remaining_leave_days
    }
}

impl PartialEqSpecImpl for Employee {
    open spec fn obeys_eq_spec() -> bool {
        true
    }

    open spec fn eq_spec(&self, other: &Self) -> bool {
        self.id == other.id && self.name@ == other.name@ && self.department@ == other.department@
            && self.position@ == other.position@ && self.remaining_leave_days
            == other.remaining_leave_days
    }
}

/// A leave request, keyed by `id`. `employee_id` names an employee but is not
/// checked against the employees on record.
#[derive(Debug)]
pub struct LeaveRequest {
    pub id: u64,
    pub employee_id: u64,
    pub start_date: u64,
    pub end_date: u64,
    pub reason: String,
    pub status: LeaveStatus,
}

/// A leave request as contracts see it.
pub struct LeaveRequestView {
    pub id: u64,
    pub employee_id: u64,
    pub start_date: u64,
    pub end_date: u64,
    pub reason: Seq<char>,
    pub status: LeaveStatus,
}

impl View for LeaveRequest {
    type V = LeaveRequestView;

    open spec fn view(&self) -> LeaveRequestView {
        LeaveRequestView {
            id: self.id,
            employee_id: self.employee_id,
            start_date: self.start_date,
            end_date: self.end_date,
            reason: self.reason@,
            status: self.status,
        }
    }
}

impl Clone for LeaveRequest {
    fn clone(&self) -> (copy: Self)
        ensures
            copy@ == self@,
    {
        LeaveRequest {
            id: self.id,
            employee_id: self.employee_id,
            start_date: self.start_date,
            end_date: self.end_date,
            reason: self.reason.clone(),
            status: self.status,
        }
    }
}

impl PartialEq for LeaveRequest {
    fn eq(&self, other: &Self) -> (equal: bool) {
        self.id == other.id && self.employee_id == other.employee_id && self.start_date
            == other.start_date && self.end_date == other.end_date && self.reason == other.reason
            && self.status == other.status
    }
}

impl PartialEqSpecImpl for LeaveRequest {
    open spec fn obeys_eq_spec() -> bool {
        true
    }

    open spec fn eq_spec(&self, other: &Self) -> bool {
        self.id == other.id && self.employee_id == other.employee_id && self.start_date
            == other.start_date && self.end_date == other.end_date && self.reason@ == other.reason@
            && self.status == other.status
    }
}

/// What a sequence of employees is in contracts.
pub open spec fn employee_views(employees: Seq<Employee>) -> Seq<EmployeeView> {
    employees.map_values(|employee: Employee| employee@)
}

/// What a sequence of leave requests is in contracts.
pub open spec fn leave_request_views(requests: Seq<LeaveRequest>) -> Seq<LeaveRequestView> {
    requests.map_values(|request: LeaveRequest| request@)
}

} // verus!
