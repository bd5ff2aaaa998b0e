use std::cell::RefCell;
use std::rc::Rc;

use stackwatch::database::{Database, DatabaseDelegate};
use stackwatch::error::Error;
use stackwatch::models::{CreateTaskRequest, Task, TaskStack, UpdateTaskRequest};

struct RecordingDelegate {
    events: Rc<RefCell<Vec<String>>>,
}

impl DatabaseDelegate for RecordingDelegate {
    fn on_task_created(&self, task: &Task) -> Result<(), Error> {
        self.events
            .borrow_mut()
            .push(format!("created:{}", task.id));
        Ok(())
    }

    fn on_task_popped(&self, task: &Task) -> Result<(), Error> {
        self.events.borrow_mut().push(format!("popped:{}", task.id));
        Ok(())
    }

    fn on_task_updated(&self, task: &Task) -> Result<(), Error> {
        self.events
            .borrow_mut()
            .push(format!("updated:{}", task.id));
        Ok(())
    }

    fn on_stack_updated(&self, stack: &TaskStack) -> Result<(), Error> {
        self.events
            .borrow_mut()
            .push(format!("stack:{}", stack.tasks.len()));
        Ok(())
    }
}

struct FailingDelegate {}

impl DatabaseDelegate for FailingDelegate {
    fn on_task_created(&self, _task: &Task) -> Result<(), Error> {
        Err(Error::storage("sink unavailable".to_string()))
    }

    fn on_task_popped(&self, _task: &Task) -> Result<(), Error> {
        Err(Error::storage("sink unavailable".to_string()))
    }

    fn on_task_updated(&self, _task: &Task) -> Result<(), Error> {
        Err(Error::storage("sink unavailable".to_string()))
    }

    fn on_stack_updated(&self, _stack: &TaskStack) -> Result<(), Error> {
        Err(Error::storage("sink unavailable".to_string()))
    }
}

#[test]
fn test_notification_order() {
    let events = Rc::new(RefCell::new(Vec::new()));
    let delegate = RecordingDelegate {
        events: Rc::clone(&events),
    };
    let mut db = Database::new(delegate);

    db.push_task(CreateTaskRequest {
        context: Some("a".to_string()),
    })
    .unwrap();
    db.update_task(UpdateTaskRequest {
        id: 1,
        context: "a2".to_string(),
    })
    .unwrap();
    db.pop_task().unwrap();

    // Each mutation notifies its own event, then a stack snapshot.
    // (A failed update or an empty pop notifies nothing; see below.)
    // Sizes: one active task after the push and the update, none after
    // the pop.
    // The recorded order is the emission order.
    assert_eq!(
        *events.borrow(),
        vec![
            "created:1".to_string(),
            "stack:1".to_string(),
            "updated:1".to_string(),
            "stack:1".to_string(),
            "popped:1".to_string(),
            "stack:0".to_string(),
        ]
    );
}

#[test]
fn test_notifier_failure_does_not_fail_mutation() {
    let mut db = Database::new(FailingDelegate {});

    // The notifier fails on every hook; the mutations still succeed.
    let task = db
        .push_task(CreateTaskRequest {
            context: Some("a".to_string()),
        })
        .unwrap();
    assert_eq!(task.id, 1);

    let updated = db
        .update_task(UpdateTaskRequest {
            id: 1,
            context: "b".to_string(),
        })
        .unwrap();
    assert_eq!(updated.context, "b");

    let popped = db.pop_task().unwrap().unwrap();
    assert_eq!(popped.id, 1);

    let stack = db.get_task_stack().unwrap();
    assert_eq!(stack.tasks.len(), 0);
}
