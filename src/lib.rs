//! A personal task list: tasks held in three partitions (active, completed,
//! deleted), a one-line text record for each task, and the partition texts
//! that are stored between runs.
pub mod split_laws;
pub mod stamp;
pub mod storage;
pub mod store;
pub mod task;
pub mod text;

pub use stamp::{to_datetime, Stamp, WallTime};
pub use storage::{
    fill, get_file_path, get_name_path, get_path, load, partition_file_name, ret_name,
    ret_name_loop, save_tasks, NameSource, NameStep,
};
pub use store::{add, check, delete, edit, extract_task, ret_last_task_id, Tasks};
pub use task::{DateTimeOption, Task, TaskError, TaskStatus};
pub use text::{parse_i32, trim_text};
