//! Where things are: files under the data directory, and file lists on the web.
use vstd::prelude::*;

verus! {

/// The data directory, where the environment names none.
pub fn data_dir(configured: Option<String>) -> (dir: String)
    ensures
        dir@ == match configured {
            Some(dir) => dir@,
            None => "/opt"@,
        },
{
    match configured {
        Some(dir) => dir,
        None => "/opt".to_owned(),
    }
}

/// The file that holds the compiled image.
pub fn output_file(data_dir: &str) -> (path: String)
    ensures
        path@ == data_dir@ + "/sovereign_data.bin"@,
{
    let mut path = data_dir.to_owned();
    path.append("/sovereign_data.bin");
    path
}

/// The file that holds the saved tasks.
pub fn tasks_state_file(data_dir: &str) -> (path: String)
    ensures
        path@ == data_dir@ + "/tasks_state.json"@,
{
    let mut path = data_dir.to_owned();
    path.append("/tasks_state.json");
    path
}

/// The file that lists the dumps.
pub fn dump_list_file(data_dir: &str) -> (path: String)
    ensures
        path@ == data_dir@ + "/common_crawl_list.txt"@,
{
    let mut path = data_dir.to_owned();
    path.append("/common_crawl_list.txt");
    path
}

/// The directory of the database.
pub fn db_path(data_dir: &str) -> (path: String)
    ensures
        path@ == data_dir@ + "/sovereign_db"@,
{
    let mut path = data_dir.to_owned();
    path.append("/sovereign_db");
    path
}

/// The address of the file list of a dump.
pub fn wet_paths_url(dump_id: &str) -> (url: String)
    ensures
        url@ == "https://data.commoncrawl.org/crawl-data/"@ + dump_id@ + "/wet.paths.gz"@,
{
    let mut url = "https://data.commoncrawl.org/crawl-data/".to_owned();
    url.append(dump_id);
    url.append("/wet.paths.gz");
    url
}

} // verus!
