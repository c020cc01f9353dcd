//! Running an Agentgateway container for comparison.

use vstd::prelude::*;

use crate::text::{concat, opt_view, views};

verus! {

/// How Agentgateway is run by Docker, with the resource limits of a comparison.
#[derive(Debug)]
pub struct AgentgatewayConfig {
    /// Listen address on the host.
    pub address: String,
    /// Path of the configuration file.
    pub config: String,
    /// Name of the container.
    pub container_name: String,
    /// Image in place of the default one.
    pub image: Option<String>,
}

impl Default for AgentgatewayConfig {
    fn default() -> (r: Self)
        ensures
            r.address@ == "127.0.0.1:18094"@,
            r.config@ == "benchmarks/comparison/configs/agentgateway.yaml"@,
            r.container_name@ == "praxis-bench-agentgateway"@,
            r.image is None,
    {
        AgentgatewayConfig {
            address: "127.0.0.1:18094".to_owned(),
            config: "benchmarks/comparison/configs/agentgateway.yaml".to_owned(),
            container_name: "praxis-bench-agentgateway".to_owned(),
            image: None,
        }
    }
}

impl AgentgatewayConfig {
    /// The image that is run.
    pub open spec fn image_text(self) -> Seq<char> {
        match self.image {
            Some(image) => image@,
            None => "cr.agentgateway.dev/agentgateway:v1.4.1"@,
        }
    }

    /// The path that is mounted: the resolved one, or else the configured one.
    pub open spec fn mounted(self, resolved: Option<Seq<char>>) -> Seq<char> {
        match resolved {
            Some(path) => path,
            None => self.config@,
        }
    }

    /// The arguments for Docker, where the configuration file is at `mounted`.
    pub open spec fn arguments(self, mounted: Seq<char>) -> Seq<Seq<char>> {
        seq![
            "run"@,
            "--rm"@,
            "--name"@,
            self.container_name@,
            "--network"@,
            "host"@,
            "--user"@,
            "0:0"@,
            "--cpus=4.0"@,
            "--memory=2g"@,
            "-v"@,
            mounted + ":/config.yaml:ro,z"@,
            self.image_text(),
            "-f"@,
            "/config.yaml"@,
        ]
    }

    /// The proxy's name.
    pub fn name(&self) -> (r: &'static str)
        ensures
            r@ == "agentgateway"@,
    {
        "agentgateway"
    }

    /// The listen address on the host.
    pub fn listen_address(&self) -> (r: &str)
        ensures
            r@ == self.address@,
    {
        self.address.as_str()
    }

    /// The command that runs the proxy. `resolved` is the absolute path of the
    /// configuration file, or `None` where it could not be resolved.
    pub fn start_command(&self, resolved: Option<&str>) -> (r: (String, Vec<String>))
        ensures
            r.0@ == "docker"@,
            views(r.1@) == self.arguments(self.mounted(opt_view(resolved))),
    {
        let mounted: &str = match resolved {
            Some(path) => path,
            None => self.config.as_str(),
        };
        let mut args: Vec<String> = Vec::new();
        args.push("run".to_owned());
        args.push("--rm".to_owned());
        args.push("--name".to_owned());
        args.push(self.container_name.clone());
        args.push("--network".to_owned());
        args.push("host".to_owned());
        args.push("--user".to_owned());
        args.push("0:0".to_owned());
        args.push("--cpus=4.0".to_owned());
        args.push("--memory=2g".to_owned());
        args.push("-v".to_owned());
        args.push(concat(mounted, ":/config.yaml:ro,z"));
        let image: String = match &self.image {
            Some(image) => image.clone(),
            None => "cr.agentgateway.dev/agentgateway:v1.4.1".to_owned(),
        };
        args.push(image);
        args.push("-f".to_owned());
        args.push("/config.yaml".to_owned());
        assert(views(args@) =~= self.arguments(mounted@));
        ("docker".to_owned(), args)
    }

    /// The path of the configuration file.
    pub fn config_path(&self) -> (r: &str)
        ensures
            r@ == self.config@,
    {
        self.config.as_str()
    }

    /// The name of the container.
    pub fn container_name(&self) -> (r: Option<&str>)
        ensures
            r matches Some(name) && name@ == self.container_name@,
    {
        Some(self.container_name.as_str())
    }

    /// Agentgateway has no health URL of its own.
    pub fn health_url(&self) -> (r: Option<String>)
        ensures
            r is None,
    {
        None
    }
}

/// The proxy runs in a container of its name, on the network of the host, with
/// its configuration mounted to be read and named to it.
pub proof fn law_arguments(config: AgentgatewayConfig, path: Seq<char>)
    ensures
        ({
            let args = config.arguments(config.mounted(Some(path)));
            &&& args.len() == 15
            &&& args[0] == "run"@ && args[2] == "--name"@ && args[3] == config.container_name@
            &&& args[4] == "--network"@ && args[5] == "host"@
            &&& args[10] == "-v"@ && args[11] == path + ":/config.yaml:ro,z"@
            &&& config.image matches Some(image) ==> args[12] == image@
            &&& args[13] == "-f"@ && args[14] == "/config.yaml"@
        }),
        config.mounted(None) == config.config@,
        config.image is None ==> config.image_text() == "cr.agentgateway.dev/agentgateway:v1.4.1"@,
{
}

} // verus!
